//! In-memory CSV encoding and decoding, over the `csv` crate.
//!
//! The library never touches files: it turns rows of byte fields into CSV
//! text and back, and callers move that text in and out of storage.
//! Encoding and decoding here are deterministic functions of the bytes
//! alone, named `csv_text_of` and `csv_rows_of`; for the record shapes
//! this library writes, decoding undoes encoding, so every loader below
//! promises success exactly where the verified row parser accepts the
//! decoded records.

use crate::codec::{
    frame_fields_match, frame_rows_ok, lemma_frame_rows_shape, lemma_smoothed_rows_shape,
    lemma_summary_rows_shape, parse_frame_rows, parse_summary_rows, render_frame_rows,
    render_smoothed_rows, render_summary_rows, rows_shape_ok, spec_frame_rows,
    spec_parse_frame_rows, spec_parse_summary_rows, spec_rows_view, spec_smoothed_rows,
    spec_summary_rows, summary_fields_match,
};
use crate::contacts::{contacts_wf, load_contacts_from_csv, spec_parse_contacts, Contact};
use crate::errors::AnalysisError;
use crate::results::{FrameResult, SmoothedResult, WindowSummary};
use vstd::prelude::*;

verus! {

/// The CSV text the `csv` crate writes for the given records, one
/// comma-separated line per record with quoting where a field needs it.
/// The text depends on the records alone.
pub uninterp spec fn csv_text_of(rows: Seq<Seq<Seq<u8>>>) -> Seq<u8>;

/// The records the `csv` crate reads back from CSV text (no header
/// handling, flexible record lengths).  The records depend on the text
/// alone.
pub uninterp spec fn csv_rows_of(text: Seq<u8>) -> Seq<Seq<Seq<u8>>>;

/// Relies on csv::Writer (in-memory, flexible record lengths): encodes
/// the records as CSV text.  Writing into a byte vector cannot fail and
/// flexible record lengths disable the one record-shape error, so
/// encoding always succeeds; the text is a function of the records
/// alone; and for records that are non-empty with a non-empty first
/// field — the only shapes this library writes — csv::Reader restores
/// exactly these records from the text.
#[verifier::external_body]
fn csv_encode_rows(rows: &Vec<Vec<Vec<u8>>>) -> (r: Option<Vec<u8>>)
    ensures
        r is Some,
        (r matches Some(t) ==> t@ == csv_text_of(spec_rows_view(rows@))),
        (r matches Some(t) ==> (rows_shape_ok(spec_rows_view(rows@)) ==> csv_rows_of(t@)
            == spec_rows_view(rows@))),
{
    let mut w = csv::WriterBuilder::new().flexible(true).from_writer(Vec::new());
    for row in rows.iter() {
        let rec = csv::ByteRecord::from(row.as_slice());
        if w.write_byte_record(&rec).is_err() {
            return None;
        }
    }
    match w.into_inner() {
        Ok(v) => Some(v),
        Err(_) => None,
    }
}

/// Relies on csv::Reader (in-memory, no header handling, flexible record
/// lengths): splits CSV text into records of byte fields.  Reading from a
/// byte slice cannot fail and flexible record lengths disable the one
/// record-shape error, so decoding always succeeds and yields exactly the
/// records named `csv_rows_of`.
#[verifier::external_body]
fn csv_decode_rows(text: &Vec<u8>) -> (r: Option<Vec<Vec<Vec<u8>>>>)
    ensures
        r is Some,
        (r matches Some(rows) ==> spec_rows_view(rows@) == csv_rows_of(text@)),
{
    let mut rdr = csv::ReaderBuilder::new().has_headers(false).flexible(true).from_reader(
        text.as_slice(),
    );
    let mut rows: Vec<Vec<Vec<u8>>> = Vec::new();
    for rec in rdr.byte_records() {
        match rec {
            Ok(r) => rows.push(r.iter().map(|f| f.to_vec()).collect()),
            Err(_) => return None,
        }
    }
    Some(rows)
}

/// Encodes a per-frame record table as CSV text.  Always succeeds, and
/// decoding the text restores exactly the written rows.
pub fn results_to_csv_text(results: &Vec<FrameResult>) -> (r: Option<Vec<u8>>)
    ensures
        r is Some,
        (r matches Some(t) ==> t@ == csv_text_of(spec_frame_rows(results@))),
        csv_rows_of(csv_text_of(spec_frame_rows(results@))) == spec_frame_rows(results@),
{
    let rows = render_frame_rows(results);
    proof {
        lemma_frame_rows_shape(results@);
    }
    csv_encode_rows(&rows)
}

/// Decodes CSV text and reads it back as per-frame records: `Ok` exactly
/// when the verified row parser accepts the decoded records (every
/// contact count fitting the machine), with frame, contact count, `q`
/// and filling map restored and the contact list left empty.
pub fn results_from_csv_text(text: &Vec<u8>) -> (r: Result<Vec<FrameResult>, AnalysisError>)
    ensures
        match r {
            Ok(out) => {
                &&& frame_rows_ok(csv_rows_of(text@))
                &&& spec_parse_frame_rows(csv_rows_of(text@)) matches Some(fields)
                    && frame_fields_match(out@, fields)
                &&& forall|k: int| 0 <= k < out@.len() ==> (#[trigger] out@[k]).wf()
            },
            Err(e) => e == AnalysisError::FormatError && !frame_rows_ok(csv_rows_of(text@)),
        },
{
    match csv_decode_rows(text) {
        None => Err(AnalysisError::FormatError),
        Some(rows) => parse_frame_rows(&rows),
    }
}

/// Encodes a window-summary table as CSV text, over the given cluster
/// universe.  Always succeeds, and decoding the text restores exactly the
/// written rows.
pub fn summary_to_csv_text(summaries: &Vec<WindowSummary>, ids: &Vec<i32>) -> (r: Option<Vec<u8>>)
    ensures
        r is Some,
        (r matches Some(t) ==> t@ == csv_text_of(spec_summary_rows(summaries@, ids@))),
        csv_rows_of(csv_text_of(spec_summary_rows(summaries@, ids@))) == spec_summary_rows(
            summaries@,
            ids@,
        ),
{
    let rows = render_summary_rows(summaries, ids);
    proof {
        lemma_summary_rows_shape(summaries@, ids@);
    }
    csv_encode_rows(&rows)
}

/// Decodes CSV text and reads it back as window summaries: `Ok` exactly
/// when the verified row parser accepts the decoded records.
pub fn summary_from_csv_text(text: &Vec<u8>) -> (r: Result<Vec<WindowSummary>, AnalysisError>)
    ensures
        match r {
            Ok(out) => {
                &&& spec_parse_summary_rows(csv_rows_of(text@)) matches Some(fields)
                    && summary_fields_match(out@, fields)
                &&& forall|k: int| 0 <= k < out@.len() ==> (#[trigger] out@[k]).wf()
            },
            Err(e) => e == AnalysisError::FormatError && spec_parse_summary_rows(
                csv_rows_of(text@),
            ) is None,
        },
{
    match csv_decode_rows(text) {
        None => Err(AnalysisError::FormatError),
        Some(rows) => parse_summary_rows(&rows),
    }
}

/// Encodes a smoothed table as CSV text, over the given cluster universe.
/// Always succeeds, and decoding the text restores exactly the written
/// rows.
pub fn smoothed_to_csv_text(smoothed: &Vec<SmoothedResult>, ids: &Vec<i32>) -> (r: Option<Vec<u8>>)
    ensures
        r is Some,
        (r matches Some(t) ==> t@ == csv_text_of(spec_smoothed_rows(smoothed@, ids@))),
        csv_rows_of(csv_text_of(spec_smoothed_rows(smoothed@, ids@))) == spec_smoothed_rows(
            smoothed@,
            ids@,
        ),
{
    let rows = render_smoothed_rows(smoothed, ids);
    proof {
        lemma_smoothed_rows_shape(smoothed@, ids@);
    }
    csv_encode_rows(&rows)
}

/// Decodes CSV text and reads it back as a native contact set: `Ok`
/// exactly when the verified row parser accepts the decoded records.
pub fn contacts_from_csv_text(text: &Vec<u8>) -> (r: Result<Vec<Contact>, AnalysisError>)
    ensures
        match r {
            Ok(out) => spec_parse_contacts(csv_rows_of(text@)) == Some(out@) && contacts_wf(out@),
            Err(e) => e == AnalysisError::FormatError && spec_parse_contacts(
                csv_rows_of(text@),
            ) is None,
        },
{
    match csv_decode_rows(text) {
        None => Err(AnalysisError::FormatError),
        Some(rows) => load_contacts_from_csv(&rows),
    }
}

} // verus!
