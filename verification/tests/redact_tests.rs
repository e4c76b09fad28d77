//! The redaction step order, driven over a document that records what it was asked to do.

use std::cell::RefCell;
use std::collections::BTreeSet;
use std::rc::Rc;

use burrow_engines::error::Result;
use burrow_engines::redact::{poisoned, run, FontOutcome, Redaction, Report, Steps, StreamId};

fn page_zero() -> BTreeSet<usize> {
    [0].into_iter().collect()
}

type Log = Rc<RefCell<Vec<String>>>;

struct Fake {
    log: Log,
    fail_rewrite: Option<usize>,
    fail_codes: bool,
    mutate_before_failing: bool,
    fonts: Vec<(u64, usize)>,
    rewrites: usize,
    streams: Vec<StreamId>,
}

impl Fake {
    fn with_streams(count: u64) -> (Self, Log) {
        let log: Log = Rc::new(RefCell::new(Vec::new()));
        (
            Self {
                log: Rc::clone(&log),
                fail_rewrite: None,
                fail_codes: false,
                mutate_before_failing: false,
                fonts: Vec::new(),
                rewrites: 0,
                streams: core::iter::once(StreamId::Page).chain((1..count).map(StreamId::Object)).collect(),
            },
            log,
        )
    }

    fn note(&self, entry: &str) {
        self.log.borrow_mut().push(entry.to_owned());
    }
}

impl Steps for Fake {
    fn affected_streams(&mut self) -> Result<Vec<StreamId>> {
        self.note("streams");
        Ok(self.streams.clone())
    }

    fn rewrite(&mut self, stream: StreamId) -> Result<()> {
        self.rewrites += 1;
        self.note(&format!("rewrite {stream:?}"));
        if self.fail_rewrite == Some(self.rewrites) {
            if self.mutate_before_failing {
                self.note("mutated");
            }
            return Err(poisoned("a stream rewrite failed"));
        }
        Ok(())
    }

    fn codes_still_drawn(&mut self, _redacted: &BTreeSet<usize>) -> Result<Vec<(u64, Vec<u32>)>> {
        self.note("codes_still_drawn");
        if self.fail_codes {
            return Err(poisoned("the finished content could not be walked"));
        }
        Ok(vec![(1, vec![65])])
    }

    fn cut_fonts(&mut self, still_drawn: &[(u64, Vec<u32>)], redacted: &BTreeSet<usize>) -> Result<Vec<FontOutcome>> {
        self.note(&format!("cut_fonts {} over {} page(s)", still_drawn.len(), redacted.len()));
        Ok(self
            .fonts
            .iter()
            .map(|(font, outside)| FontOutcome { font: *font, cut: *outside == 0, also_used_by: *outside })
            .collect())
    }

    fn strip_page_keys(&mut self) -> Result<()> {
        self.note("strip_page_keys");
        Ok(())
    }

    fn write(&mut self) -> Result<Vec<u8>> {
        self.note("write");
        Ok(b"%PDF-1.7\n".to_vec())
    }
}

#[test]
fn the_order_is_every_content_edit_then_fonts_then_the_page() {
    let (fake, log) = Fake::with_streams(4);
    run(fake, page_zero()).expect("a clean run succeeds");
    assert_eq!(
        log.borrow().as_slice(),
        [
            "streams".to_owned(),
            "rewrite Page".to_owned(),
            "rewrite Object(1)".to_owned(),
            "rewrite Object(2)".to_owned(),
            "rewrite Object(3)".to_owned(),
            "codes_still_drawn".to_owned(),
            "cut_fonts 1 over 1 page(s)".to_owned(),
            "strip_page_keys".to_owned(),
            "write".to_owned(),
        ],
        "font surgery must follow the LAST rewrite, and the page strip must be last"
    );
}

#[test]
fn font_surgery_reads_the_content_after_every_edit_not_before_any() {
    let (fake, log) = Fake::with_streams(4);
    run(fake, page_zero()).expect("succeeds");
    let log = log.borrow();
    let last_rewrite = log.iter().rposition(|entry| entry.starts_with("rewrite")).expect("some stream was rewritten");
    let read_codes = log.iter().position(|entry| entry == "codes_still_drawn").expect("the finished content was read");
    assert!(read_codes > last_rewrite);
}

#[test]
fn failing_the_third_of_four_rewrites_emits_nothing_and_refuses_by_name() {
    let (mut fake, log) = Fake::with_streams(4);
    fake.fail_rewrite = Some(3);
    let error = run(fake, page_zero()).expect_err("the third rewrite fails, so the redaction must refuse");
    assert!(format!("{error:?}").contains("[document-poisoned]"), "refused, but by a different rule: {error:?}");
    let log = log.borrow();
    assert!(!log.iter().any(|entry| entry == "write"), "nothing may be emitted from a poisoned document: {log:?}");
    assert_eq!(log.iter().filter(|entry| entry.starts_with("rewrite")).count(), 3);
    for later in ["codes_still_drawn", "cut_fonts", "strip_page_keys"] {
        assert!(!log.iter().any(|entry| entry.starts_with(later)), "`{later}` ran after a failed rewrite: {log:?}");
    }
}

#[test]
fn a_failure_in_font_surgery_also_emits_nothing() {
    let (mut fake, log) = Fake::with_streams(4);
    fake.fail_codes = true;
    let error = run(fake, page_zero()).expect_err("font surgery fails, so the redaction must refuse");
    assert!(format!("{error:?}").contains("[document-poisoned]"), "refused, but by a different rule: {error:?}");
    assert!(!log.borrow().iter().any(|entry| entry == "write"), "nothing may be emitted: {:?}", log.borrow());
}

#[test]
fn a_step_that_mutates_before_failing_still_emits_nothing() {
    let (mut fake, log) = Fake::with_streams(4);
    fake.fail_rewrite = Some(2);
    fake.mutate_before_failing = true;
    let error = run(fake, page_zero()).expect_err("a mutating failure still refuses");
    assert!(format!("{error:?}").contains("[document-poisoned]"), "refused, but by a different rule: {error:?}");
    let log = log.borrow();
    assert!(log.iter().any(|entry| entry == "mutated"), "the fixture must actually mutate: {log:?}");
    assert!(!log.iter().any(|entry| entry == "write"), "nothing may be emitted: {log:?}");
}

#[test]
fn the_report_says_per_font_whether_it_was_cut_or_retained() {
    let (mut fake, _) = Fake::with_streams(2);
    fake.fonts = vec![(11, 0), (22, 4)];
    let (_, report) = run(fake, page_zero()).expect("succeeds");
    assert_eq!(
        report.fonts,
        vec![
            FontOutcome { font: 11, cut: true, also_used_by: 0 },
            FontOutcome { font: 22, cut: false, also_used_by: 4 },
        ]
    );
    assert!(report.discloses_a_retained_font(), "a font four other pages use was retained, so the page must say so");
    assert_eq!(report.retained().len(), 1);
    assert_eq!(report.retained().first().map(|outcome| outcome.also_used_by), Some(4));
}

#[test]
fn a_document_whose_fonts_were_all_cut_discloses_nothing() {
    let (mut fake, _) = Fake::with_streams(2);
    fake.fonts = vec![(11, 0), (22, 0)];
    let (_, report) = run(fake, page_zero()).expect("succeeds");
    assert!(!report.discloses_a_retained_font(), "nothing was retained, so nothing is disclosed: {report:?}");
    assert_eq!(report.retained().len(), 0);
}

#[test]
fn a_failed_run_yields_no_report_either() {
    let (mut fake, _) = Fake::with_streams(4);
    fake.fail_rewrite = Some(2);
    fake.fonts = vec![(11, 3)];
    assert!(run(fake, page_zero()).is_err(), "the failure must not yield a report through the success channel");
}

#[test]
fn a_successful_run_rewrites_every_stream_and_emits() {
    let (fake, log) = Fake::with_streams(4);
    let edited = Redaction::new(fake, page_zero()).edit_content().ok().expect("edits");
    assert_eq!(edited.rewritten(), 4, "every affected stream must be rewritten");
    let bytes = edited
        .cut_fonts()
        .ok()
        .expect("cuts")
        .strip_page()
        .ok()
        .expect("strips")
        .emit()
        .expect("emits");
    assert!(bytes.starts_with(b"%PDF"), "a successful run emits bytes");
    assert!(log.borrow().iter().any(|entry| entry == "write"));
}

#[test]
fn the_retained_fonts_are_the_uncut_ones_in_report_order() {
    let report = Report {
        fonts: vec![
            FontOutcome { font: 1, cut: false, also_used_by: 2 },
            FontOutcome { font: 2, cut: true, also_used_by: 0 },
            FontOutcome { font: 3, cut: false, also_used_by: 1 },
        ],
    };
    let retained: Vec<u64> = report.retained().iter().map(|o| o.font).collect();
    assert_eq!(retained, vec![1, 3]);
    assert!(report.discloses_a_retained_font());
    assert!(!Report::default().discloses_a_retained_font());
}

#[test]
fn the_poisoned_refusal_names_itself_and_carries_the_detail() {
    match poisoned("a stream rewrite failed") {
        burrow_engines::error::Error::Malformed(message) => {
            assert_eq!(message, "pdf redaction [document-poisoned]: a stream rewrite failed");
        }
        other => panic!("expected Malformed, got {other:?}"),
    }
}
