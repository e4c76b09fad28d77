//! The names this library reads and writes, as bytes without the leading `/`.
//!
//! Each has a spec function naming its bytes and an executable function returning them.

use vstd::prelude::*;

verus! {

/// `/Rotate`.
pub open spec fn spec_rotate() -> Seq<u8> {
    seq![82u8, 111u8, 116u8, 97u8, 116u8, 101u8]
}

/// `/Rotate`, as bytes.
pub fn rotate() -> (k: Vec<u8>)
    ensures
        k@ == spec_rotate(),
{
    let k: Vec<u8> = vec![82u8, 111u8, 116u8, 97u8, 116u8, 101u8];
    assert(k@ =~= spec_rotate());
    k
}

/// `/Parent`.
pub open spec fn spec_parent() -> Seq<u8> {
    seq![80u8, 97u8, 114u8, 101u8, 110u8, 116u8]
}

/// `/Parent`, as bytes.
pub fn parent() -> (k: Vec<u8>)
    ensures
        k@ == spec_parent(),
{
    let k: Vec<u8> = vec![80u8, 97u8, 114u8, 101u8, 110u8, 116u8];
    assert(k@ =~= spec_parent());
    k
}

/// `/Resources`.
pub open spec fn spec_resources() -> Seq<u8> {
    seq![82u8, 101u8, 115u8, 111u8, 117u8, 114u8, 99u8, 101u8, 115u8]
}

/// `/Resources`, as bytes.
pub fn resources() -> (k: Vec<u8>)
    ensures
        k@ == spec_resources(),
{
    let k: Vec<u8> = vec![82u8, 101u8, 115u8, 111u8, 117u8, 114u8, 99u8, 101u8, 115u8];
    assert(k@ =~= spec_resources());
    k
}

/// `/MediaBox`.
pub open spec fn spec_media_box() -> Seq<u8> {
    seq![77u8, 101u8, 100u8, 105u8, 97u8, 66u8, 111u8, 120u8]
}

/// `/MediaBox`, as bytes.
pub fn media_box() -> (k: Vec<u8>)
    ensures
        k@ == spec_media_box(),
{
    let k: Vec<u8> = vec![77u8, 101u8, 100u8, 105u8, 97u8, 66u8, 111u8, 120u8];
    assert(k@ =~= spec_media_box());
    k
}

/// `/CropBox`.
pub open spec fn spec_crop_box() -> Seq<u8> {
    seq![67u8, 114u8, 111u8, 112u8, 66u8, 111u8, 120u8]
}

/// `/CropBox`, as bytes.
pub fn crop_box() -> (k: Vec<u8>)
    ensures
        k@ == spec_crop_box(),
{
    let k: Vec<u8> = vec![67u8, 114u8, 111u8, 112u8, 66u8, 111u8, 120u8];
    assert(k@ =~= spec_crop_box());
    k
}

/// `/Kids`.
pub open spec fn spec_kids() -> Seq<u8> {
    seq![75u8, 105u8, 100u8, 115u8]
}

/// `/Kids`, as bytes.
pub fn kids() -> (k: Vec<u8>)
    ensures
        k@ == spec_kids(),
{
    let k: Vec<u8> = vec![75u8, 105u8, 100u8, 115u8];
    assert(k@ =~= spec_kids());
    k
}

/// `/Count`.
pub open spec fn spec_count() -> Seq<u8> {
    seq![67u8, 111u8, 117u8, 110u8, 116u8]
}

/// `/Count`, as bytes.
pub fn count() -> (k: Vec<u8>)
    ensures
        k@ == spec_count(),
{
    let k: Vec<u8> = vec![67u8, 111u8, 117u8, 110u8, 116u8];
    assert(k@ =~= spec_count());
    k
}

/// `/Type`.
pub open spec fn spec_type_key() -> Seq<u8> {
    seq![84u8, 121u8, 112u8, 101u8]
}

/// `/Type`, as bytes.
pub fn type_key() -> (k: Vec<u8>)
    ensures
        k@ == spec_type_key(),
{
    let k: Vec<u8> = vec![84u8, 121u8, 112u8, 101u8];
    assert(k@ =~= spec_type_key());
    k
}

/// `/Pages`.
pub open spec fn spec_pages() -> Seq<u8> {
    seq![80u8, 97u8, 103u8, 101u8, 115u8]
}

/// `/Pages`, as bytes.
pub fn pages() -> (k: Vec<u8>)
    ensures
        k@ == spec_pages(),
{
    let k: Vec<u8> = vec![80u8, 97u8, 103u8, 101u8, 115u8];
    assert(k@ =~= spec_pages());
    k
}

/// `/XObject`.
pub open spec fn spec_x_object() -> Seq<u8> {
    seq![88u8, 79u8, 98u8, 106u8, 101u8, 99u8, 116u8]
}

/// `/XObject`, as bytes.
pub fn x_object() -> (k: Vec<u8>)
    ensures
        k@ == spec_x_object(),
{
    let k: Vec<u8> = vec![88u8, 79u8, 98u8, 106u8, 101u8, 99u8, 116u8];
    assert(k@ =~= spec_x_object());
    k
}

/// `/Pattern`.
pub open spec fn spec_pattern() -> Seq<u8> {
    seq![80u8, 97u8, 116u8, 116u8, 101u8, 114u8, 110u8]
}

/// `/Pattern`, as bytes.
pub fn pattern() -> (k: Vec<u8>)
    ensures
        k@ == spec_pattern(),
{
    let k: Vec<u8> = vec![80u8, 97u8, 116u8, 116u8, 101u8, 114u8, 110u8];
    assert(k@ =~= spec_pattern());
    k
}

/// `/Font`.
pub open spec fn spec_font() -> Seq<u8> {
    seq![70u8, 111u8, 110u8, 116u8]
}

/// `/Font`, as bytes.
pub fn font() -> (k: Vec<u8>)
    ensures
        k@ == spec_font(),
{
    let k: Vec<u8> = vec![70u8, 111u8, 110u8, 116u8];
    assert(k@ =~= spec_font());
    k
}

/// `/CharProcs`.
pub open spec fn spec_char_procs() -> Seq<u8> {
    seq![67u8, 104u8, 97u8, 114u8, 80u8, 114u8, 111u8, 99u8, 115u8]
}

/// `/CharProcs`, as bytes.
pub fn char_procs() -> (k: Vec<u8>)
    ensures
        k@ == spec_char_procs(),
{
    let k: Vec<u8> = vec![67u8, 104u8, 97u8, 114u8, 80u8, 114u8, 111u8, 99u8, 115u8];
    assert(k@ =~= spec_char_procs());
    k
}

/// `/Annots`.
pub open spec fn spec_annots() -> Seq<u8> {
    seq![65u8, 110u8, 110u8, 111u8, 116u8, 115u8]
}

/// `/Annots`, as bytes.
pub fn annots() -> (k: Vec<u8>)
    ensures
        k@ == spec_annots(),
{
    let k: Vec<u8> = vec![65u8, 110u8, 110u8, 111u8, 116u8, 115u8];
    assert(k@ =~= spec_annots());
    k
}

/// `/AP`.
pub open spec fn spec_ap() -> Seq<u8> {
    seq![65u8, 80u8]
}

/// `/AP`, as bytes.
pub fn ap() -> (k: Vec<u8>)
    ensures
        k@ == spec_ap(),
{
    let k: Vec<u8> = vec![65u8, 80u8];
    assert(k@ =~= spec_ap());
    k
}

/// `/N`.
pub open spec fn spec_n_state() -> Seq<u8> {
    seq![78u8]
}

/// `/N`, as bytes.
pub fn n_state() -> (k: Vec<u8>)
    ensures
        k@ == spec_n_state(),
{
    let k: Vec<u8> = vec![78u8];
    assert(k@ =~= spec_n_state());
    k
}

/// `/D`.
pub open spec fn spec_d_state() -> Seq<u8> {
    seq![68u8]
}

/// `/D`, as bytes.
pub fn d_state() -> (k: Vec<u8>)
    ensures
        k@ == spec_d_state(),
{
    let k: Vec<u8> = vec![68u8];
    assert(k@ =~= spec_d_state());
    k
}

/// `/R`.
pub open spec fn spec_r_state() -> Seq<u8> {
    seq![82u8]
}

/// `/R`, as bytes.
pub fn r_state() -> (k: Vec<u8>)
    ensures
        k@ == spec_r_state(),
{
    let k: Vec<u8> = vec![82u8];
    assert(k@ =~= spec_r_state());
    k
}

/// `/Contents`.
pub open spec fn spec_contents() -> Seq<u8> {
    seq![67u8, 111u8, 110u8, 116u8, 101u8, 110u8, 116u8, 115u8]
}

/// `/Contents`, as bytes.
pub fn contents() -> (k: Vec<u8>)
    ensures
        k@ == spec_contents(),
{
    let k: Vec<u8> = vec![67u8, 111u8, 110u8, 116u8, 101u8, 110u8, 116u8, 115u8];
    assert(k@ =~= spec_contents());
    k
}

/// `/ToUnicode`.
pub open spec fn spec_to_unicode() -> Seq<u8> {
    seq![84u8, 111u8, 85u8, 110u8, 105u8, 99u8, 111u8, 100u8, 101u8]
}

/// `/ToUnicode`, as bytes.
pub fn to_unicode() -> (k: Vec<u8>)
    ensures
        k@ == spec_to_unicode(),
{
    let k: Vec<u8> = vec![84u8, 111u8, 85u8, 110u8, 105u8, 99u8, 111u8, 100u8, 101u8];
    assert(k@ =~= spec_to_unicode());
    k
}

/// `/Encoding`.
pub open spec fn spec_encoding() -> Seq<u8> {
    seq![69u8, 110u8, 99u8, 111u8, 100u8, 105u8, 110u8, 103u8]
}

/// `/Encoding`, as bytes.
pub fn encoding() -> (k: Vec<u8>)
    ensures
        k@ == spec_encoding(),
{
    let k: Vec<u8> = vec![69u8, 110u8, 99u8, 111u8, 100u8, 105u8, 110u8, 103u8];
    assert(k@ =~= spec_encoding());
    k
}

/// `/Widths`.
pub open spec fn spec_widths() -> Seq<u8> {
    seq![87u8, 105u8, 100u8, 116u8, 104u8, 115u8]
}

/// `/Widths`, as bytes.
pub fn widths() -> (k: Vec<u8>)
    ensures
        k@ == spec_widths(),
{
    let k: Vec<u8> = vec![87u8, 105u8, 100u8, 116u8, 104u8, 115u8];
    assert(k@ =~= spec_widths());
    k
}

/// `/Differences`.
pub open spec fn spec_differences() -> Seq<u8> {
    seq![68u8, 105u8, 102u8, 102u8, 101u8, 114u8, 101u8, 110u8, 99u8, 101u8, 115u8]
}

/// `/Differences`, as bytes.
pub fn differences() -> (k: Vec<u8>)
    ensures
        k@ == spec_differences(),
{
    let k: Vec<u8> = vec![68u8, 105u8, 102u8, 102u8, 101u8, 114u8, 101u8, 110u8, 99u8, 101u8, 115u8];
    assert(k@ =~= spec_differences());
    k
}

/// `/FirstChar`.
pub open spec fn spec_first_char() -> Seq<u8> {
    seq![70u8, 105u8, 114u8, 115u8, 116u8, 67u8, 104u8, 97u8, 114u8]
}

/// `/FirstChar`, as bytes.
pub fn first_char() -> (k: Vec<u8>)
    ensures
        k@ == spec_first_char(),
{
    let k: Vec<u8> = vec![70u8, 105u8, 114u8, 115u8, 116u8, 67u8, 104u8, 97u8, 114u8];
    assert(k@ =~= spec_first_char());
    k
}

/// `/BaseEncoding`.
pub open spec fn spec_base_encoding_key() -> Seq<u8> {
    seq![66u8, 97u8, 115u8, 101u8, 69u8, 110u8, 99u8, 111u8, 100u8, 105u8, 110u8, 103u8]
}

/// `/BaseEncoding`, as bytes.
pub fn base_encoding_key() -> (k: Vec<u8>)
    ensures
        k@ == spec_base_encoding_key(),
{
    let k: Vec<u8> = vec![66u8, 97u8, 115u8, 101u8, 69u8, 110u8, 99u8, 111u8, 100u8, 105u8, 110u8, 103u8];
    assert(k@ =~= spec_base_encoding_key());
    k
}

/// `/WinAnsiEncoding`.
pub open spec fn spec_win_ansi_encoding() -> Seq<u8> {
    seq![87u8, 105u8, 110u8, 65u8, 110u8, 115u8, 105u8, 69u8, 110u8, 99u8, 111u8, 100u8, 105u8, 110u8, 103u8]
}

/// `/WinAnsiEncoding`, as bytes.
pub fn win_ansi_encoding() -> (k: Vec<u8>)
    ensures
        k@ == spec_win_ansi_encoding(),
{
    let k: Vec<u8> = vec![87u8, 105u8, 110u8, 65u8, 110u8, 115u8, 105u8, 69u8, 110u8, 99u8, 111u8, 100u8, 105u8, 110u8, 103u8];
    assert(k@ =~= spec_win_ansi_encoding());
    k
}

/// `/Filter`.
pub open spec fn spec_filter() -> Seq<u8> {
    seq![70u8, 105u8, 108u8, 116u8, 101u8, 114u8]
}

/// `/Filter`, as bytes.
pub fn filter() -> (k: Vec<u8>)
    ensures
        k@ == spec_filter(),
{
    let k: Vec<u8> = vec![70u8, 105u8, 108u8, 116u8, 101u8, 114u8];
    assert(k@ =~= spec_filter());
    k
}

/// `/DecodeParms`.
pub open spec fn spec_decode_parms() -> Seq<u8> {
    seq![68u8, 101u8, 99u8, 111u8, 100u8, 101u8, 80u8, 97u8, 114u8, 109u8, 115u8]
}

/// `/DecodeParms`, as bytes.
pub fn decode_parms() -> (k: Vec<u8>)
    ensures
        k@ == spec_decode_parms(),
{
    let k: Vec<u8> = vec![68u8, 101u8, 99u8, 111u8, 100u8, 101u8, 80u8, 97u8, 114u8, 109u8, 115u8];
    assert(k@ =~= spec_decode_parms());
    k
}

} // verus!
