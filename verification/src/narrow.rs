//! Font surgery: removing a font's entries for the codes the document no longer draws.
//!
//! Narrowed, not deleted. `/Differences` and `/Widths` say what the kept codes are as well as
//! what the removed ones were, so deleting them damages the text the redaction was meant to
//! leave alone.
//!
//! `/Differences` is `[ 65 /S /e /c /r /e /t ]`: a code, then the glyph names for that code
//! onwards; the names spell the text. A removed name at code `c` becomes the integer `c + 1`:
//! the array keeps its length and the run re-anchors at the code the next item already had,
//! so `[1 /a /b /c]` with `/b` removed is `[1 /a 3 /c]`, and `/c` is still code 3. Several
//! names can sit at one code and only the last one draws, so a name survives only if its code
//! is kept and it is the last name at that code.
//!
//! `/Widths` is positional, so a removed code's width is zeroed rather than taken out.

use std::collections::{BTreeMap, BTreeSet};

use vstd::prelude::*;

use crate::error::{Error, Result, Stage};
use crate::graph::{
    array_items, array_target, copy_value, dictionary_target, entries_of, entries_view, key_of, values_view, with_array,
    Body, Document, DocumentV, Value, ValueV,
};
use crate::limits::{Clock, Deadline};
use crate::names::{
    differences, encoding, font, spec_differences, spec_encoding, spec_first_char, spec_font, spec_widths, widths,
};
use crate::sharing::{first_key, inherited_resources, is_first, page_resources};

verus! {

broadcast use vstd::laws_cmp::group_laws_cmp, vstd::std_specs::btree::group_btree_axioms;

/// The longest `/Differences` or `/Widths` array this library will rewrite.
pub const DIFFERENCES_CEILING: usize = 65_536usize;

/// The largest character code.
pub open spec fn max_code() -> int {
    u32::MAX as int
}

/// The code in effect after the first `n` items: an integer anchors the run, a name takes
/// the next code, anything else is passed over. Codes saturate at the largest code.
pub open spec fn code_after(items: Seq<ValueV>, n: int) -> int
    decreases n,
{
    if n <= 0 {
        0
    } else {
        match items[n - 1] {
            ValueV::Integer(v) => v,
            ValueV::Name(_) => {
                let c = code_after(items, n - 1);
                if c < max_code() { c + 1 } else { c }
            },
            _ => code_after(items, n - 1),
        }
    }
}

/// Every anchor is a character code.
pub open spec fn anchors_valid(items: Seq<ValueV>) -> bool {
    forall|i: int| 0 <= i < items.len() ==> (#[trigger] items[i] matches ValueV::Integer(v) ==> 0 <= v <= max_code())
}

/// Whether a name at code `c` sits at or after index `n`.
pub open spec fn named_from(items: Seq<ValueV>, c: int, n: int) -> bool {
    exists|j: int| n <= j < items.len() && items[j] is Name && #[trigger] code_after(items, j) == c
}

/// Whether the name at index `i` is the one that draws at its code: the last name there.
pub open spec fn is_last_at_code(items: Seq<ValueV>, i: int) -> bool {
    items[i] is Name && !named_from(items, code_after(items, i), i + 1)
}

/// Whether the item at `i` survives narrowing to `keeps`: anything but a name does; a name
/// does when its code is kept and it is the last name at its code.
pub open spec fn survives(items: Seq<ValueV>, keeps: Set<u32>, i: int) -> bool {
    !(items[i] is Name) || (keeps.contains(code_after(items, i) as u32) && is_last_at_code(items, i))
}

/// `/Differences` narrowed to `keeps`: every name that does not survive becomes the integer
/// one past its code.
pub open spec fn narrowed_differences(items: Seq<ValueV>, keeps: Set<u32>) -> Seq<ValueV> {
    Seq::new(items.len(), |i: int| if survives(items, keeps, i) { items[i] } else { ValueV::Integer(code_after(items, i) + 1) })
}

/// The glyph name an array draws at code `c`, among its first `n` items: the last name there.
pub open spec fn drawn_at(items: Seq<ValueV>, c: int, n: int) -> Option<Seq<u8>>
    decreases n,
{
    if n <= 0 {
        None
    } else if items[n - 1] is Name && code_after(items, n - 1) == c {
        match items[n - 1] {
            ValueV::Name(name) => Some(name),
            _ => None,
        }
    } else {
        drawn_at(items, c, n - 1)
    }
}

/// What an array draws at code `c`.
pub open spec fn drawn(items: Seq<ValueV>, c: int) -> Option<Seq<u8>> {
    drawn_at(items, c, items.len() as int)
}

/// No name sits at the largest code, where a run saturates.
pub open spec fn below_saturation(items: Seq<ValueV>) -> bool {
    forall|i: int| 0 <= i < items.len() && items[i] is Name ==> #[trigger] code_after(items, i) < max_code()
}

/// Narrowing leaves every code where it was.
proof fn lemma_codes_unchanged(items: Seq<ValueV>, keeps: Set<u32>, n: int)
    requires
        0 <= n <= items.len(),
        below_saturation(items),
    ensures
        code_after(narrowed_differences(items, keeps), n) == code_after(items, n),
    decreases n,
{
    if n > 0 {
        lemma_codes_unchanged(items, keeps, n - 1);
        let out = narrowed_differences(items, keeps);
        if items[n - 1] is Name {
            assert(code_after(items, n - 1) < max_code());
        }
    }
}

/// Narrowing to `keeps` leaves, at every code, what the array drew there if the code is
/// kept, and nothing if it is not.
pub proof fn lemma_narrowing_keeps_exactly_the_kept_codes(items: Seq<ValueV>, keeps: Set<u32>, c: int)
    requires
        below_saturation(items),
        0 <= c <= max_code(),
    ensures
        drawn(narrowed_differences(items, keeps), c) == if keeps.contains(c as u32) {
            drawn(items, c)
        } else {
            None
        },
{
    let len = items.len() as int;
    let out = narrowed_differences(items, keeps);
    assert forall|n: int| 0 <= n <= len implies code_after(out, n) == code_after(items, n) by {
        lemma_codes_unchanged(items, keeps, n);
    }
    lemma_drawn_after_narrowing(items, keeps, c, len);
    assert(!named_from(items, c, len));
}

proof fn lemma_drawn_after_narrowing(items: Seq<ValueV>, keeps: Set<u32>, c: int, n: int)
    requires
        0 <= n <= items.len(),
        0 <= c <= max_code(),
        forall|m: int| 0 <= m <= items.len() ==> code_after(narrowed_differences(items, keeps), m) == #[trigger] code_after(items, m),
    ensures
        drawn_at(narrowed_differences(items, keeps), c, n) == if keeps.contains(c as u32) && !named_from(items, c, n) {
            drawn_at(items, c, n)
        } else {
            None
        },
    decreases n,
{
    let out = narrowed_differences(items, keeps);
    if n > 0 {
        let i = n - 1;
        lemma_drawn_after_narrowing(items, keeps, c, i);
        assert(code_after(out, i) == code_after(items, i));
        if items[i] is Name && code_after(items, i) == c {
            assert(named_from(items, c, i));
            if keeps.contains(c as u32) && !named_from(items, c, n) {
                assert(survives(items, keeps, i));
                assert(out[i] == items[i]);
            } else {
                assert(!survives(items, keeps, i));
            }
        } else {
            assert(named_from(items, c, i) == named_from(items, c, n)) by {
                if named_from(items, c, i) {
                    let j = choose|j: int| i <= j < items.len() && items[j] is Name && #[trigger] code_after(items, j) == c;
                    assert(j != i);
                }
            }
            if items[i] is Name {
                if !survives(items, keeps, i) {
                    assert(out[i] == ValueV::Integer(code_after(items, i) + 1));
                } else {
                    assert(out[i] == items[i]);
                }
            } else {
                assert(out[i] == items[i]);
            }
        }
    }
}

/// `keeps` as a set of codes.
pub open spec fn kept(keeps: &BTreeSet<u32>) -> Set<u32> {
    keeps@
}

/// Narrow a `/Differences` array to the codes in `keeps`.
///
/// # Errors
///
/// - `Unsupported` for an array longer than [`DIFFERENCES_CEILING`].
/// - `Malformed` for an anchor that is not a character code: folding it onto one would test
///   every later name against the wrong code.
pub fn narrow_differences_items(items: &Vec<Value>, keeps: &BTreeSet<u32>) -> (r: Result<Vec<Value>>)
    ensures
        items@.len() > DIFFERENCES_CEILING ==> r is Err && r->Err_0 is Unsupported,
        items@.len() <= DIFFERENCES_CEILING && !anchors_valid(values_view(items@)) ==> r is Err && r->Err_0 is Malformed,
        r is Ok <==> items@.len() <= DIFFERENCES_CEILING && anchors_valid(values_view(items@)),
        r is Ok ==> values_view(r->Ok_0@) == narrowed_differences(values_view(items@), keeps@),
{
    if items.len() > DIFFERENCES_CEILING {
        return Err(Error::Unsupported(
            "pdf redaction [differences-too-long]: a /Differences array longer than burrow will rewrite".to_owned(),
        ));
    }
    let ghost s = values_view(items@);
    // The code in effect before each item, checking every anchor.
    let mut codes: Vec<u32> = Vec::new();
    let mut code: u32 = 0;
    let mut i: usize = 0;
    while i < items.len()
        invariant
            s == values_view(items@),
            items@.len() <= DIFFERENCES_CEILING,
            i <= items@.len(),
            codes@.len() == i,
            code == code_after(s, i as int),
            forall|j: int| 0 <= j < i ==> #[trigger] codes@[j] == code_after(s, j),
            forall|j: int| 0 <= j < i ==> (#[trigger] s[j] matches ValueV::Integer(v) ==> 0 <= v <= max_code()),
        decreases items.len() - i,
    {
        codes.push(code);
        assert(s[i as int] == items@[i as int]@);
        match &items[i] {
            Value::Integer(v) => {
                if *v < 0 || *v > u32::MAX as i64 {
                    return Err(Error::Malformed(
                        "pdf redaction [differences-anchor]: a /Differences array anchored at a code outside the range a character code can take".to_owned(),
                    ));
                }
                code = *v as u32;
            },
            Value::Name(_) => {
                if code < u32::MAX {
                    code = code + 1;
                }
            },
            _ => {},
        }
        i += 1;
    }
    // Which names survive: walking back, a name is the last at its code when no later name
    // took that code.
    let n = items.len();
    let mut keep_item: Vec<bool> = Vec::new();
    let mut later: BTreeSet<u32> = BTreeSet::new();
    let mut k: usize = n;
    while k > 0
        invariant
            s == values_view(items@),
            n == items@.len(),
            k <= n,
            codes@.len() == n,
            forall|j: int| 0 <= j < n ==> #[trigger] codes@[j] == code_after(s, j),
            anchors_valid(s),
            keep_item@.len() == n - k,
            forall|j: int| k <= j < n ==> #[trigger] keep_item@[n - 1 - j] == survives(s, keeps@, j),
            forall|c: u32| #[trigger] later@.contains(c) <==> named_from(s, c as int, k as int),
        decreases k,
    {
        let j = k - 1;
        let is_name = match &items[j] {
            Value::Name(_) => true,
            _ => false,
        };
        assert(is_name <==> s[j as int] is Name);
        let c = codes[j];
        let survive = !is_name || (keeps.contains(&c) && !later.contains(&c));
        proof {
            if is_name {
                assert(named_from(s, c as int, k as int) == !is_last_at_code(s, j as int));
            }
        }
        keep_item.push(survive);
        if is_name {
            later.insert(c);
        }
        proof {
            assert forall|c2: u32| #[trigger] later@.contains(c2) <==> named_from(s, c2 as int, j as int) by {
                if named_from(s, c2 as int, k as int) {
                    let w = choose|w: int| k <= w < s.len() && s[w] is Name && #[trigger] code_after(s, w) == c2 as int;
                    assert(j <= w);
                }
                if named_from(s, c2 as int, j as int) && !named_from(s, c2 as int, k as int) {
                    let w = choose|w: int| j <= w < s.len() && s[w] is Name && #[trigger] code_after(s, w) == c2 as int;
                    assert(w == j);
                    assert(code_after(s, j as int) == c as int);
                    assert(0 <= code_after(s, j as int) <= max_code()) by {
                        lemma_code_in_range(s, j as int);
                    }
                }
            }
        }
        k -= 1;
    }
    // The narrowed array.
    let mut out: Vec<Value> = Vec::new();
    let mut at: usize = 0;
    while at < n
        invariant
            s == values_view(items@),
            n == items@.len(),
            at <= n,
            codes@.len() == n,
            forall|j: int| 0 <= j < n ==> #[trigger] codes@[j] == code_after(s, j),
            keep_item@.len() == n,
            forall|j: int| 0 <= j < n ==> #[trigger] keep_item@[n - 1 - j] == survives(s, keeps@, j),
            values_view(out@) == narrowed_differences(s, keeps@).take(at as int),
        decreases n - at,
    {
        let ghost prev = out@;
        let v = if keep_item[n - 1 - at] {
            copy_value(&items[at])
        } else {
            Value::Integer(codes[at] as i64 + 1)
        };
        out.push(v);
        assert(values_view(out@) =~= values_view(prev).push(v@));
        at += 1;
        assert(values_view(out@) =~= narrowed_differences(s, keeps@).take(at as int));
    }
    assert(narrowed_differences(s, keeps@).take(n as int) =~= narrowed_differences(s, keeps@));
    Ok(out)
}

/// Under valid anchors every code is a character code.
proof fn lemma_code_in_range(items: Seq<ValueV>, n: int)
    requires
        anchors_valid(items),
        n <= items.len(),
    ensures
        0 <= code_after(items, n) <= max_code(),
    decreases n,
{
    if n > 0 {
        lemma_code_in_range(items, n - 1);
        assert(items[n - 1] matches ValueV::Integer(v) ==> 0 <= v <= max_code());
    }
}

/// The code a `/Widths` entry at `at` is for, after `first`: saturating at the largest code.
pub open spec fn width_code(first: int, at: int) -> int {
    if first + at <= max_code() { first + at } else { max_code() }
}

/// `/Widths` narrowed to `keeps`: the width of every code not kept is zero.
pub open spec fn narrowed_widths(items: Seq<ValueV>, first: int, keeps: Set<u32>) -> Seq<ValueV> {
    Seq::new(items.len(), |at: int| if keeps.contains(width_code(first, at) as u32) { items[at] } else { ValueV::Integer(0) })
}

/// Narrow a `/Widths` array, whose first entry is for code `first`, to the codes in `keeps`.
///
/// # Errors
///
/// `Unsupported` for an array longer than [`DIFFERENCES_CEILING`].
pub fn narrow_widths_items(items: &Vec<Value>, first: u32, keeps: &BTreeSet<u32>) -> (r: Result<Vec<Value>>)
    ensures
        r is Ok <==> items@.len() <= DIFFERENCES_CEILING,
        r is Err ==> r->Err_0 is Unsupported,
        r is Ok ==> values_view(r->Ok_0@) == narrowed_widths(values_view(items@), first as int, keeps@),
{
    if items.len() > DIFFERENCES_CEILING {
        return Err(Error::Unsupported(
            "pdf redaction [widths-too-long]: a /Widths array longer than burrow will rewrite".to_owned(),
        ));
    }
    let ghost target = narrowed_widths(values_view(items@), first as int, keeps@);
    let mut out: Vec<Value> = Vec::new();
    let mut at: usize = 0;
    while at < items.len()
        invariant
            items@.len() <= DIFFERENCES_CEILING,
            at <= items@.len(),
            target == narrowed_widths(values_view(items@), first as int, keeps@),
            values_view(out@) == target.take(at as int),
        decreases items.len() - at,
    {
        let offset = at as u32;
        let code = if offset <= u32::MAX - first { first + offset } else { u32::MAX };
        let ghost prev = out@;
        let v = if keeps.contains(&code) { copy_value(&items[at]) } else { Value::Integer(0) };
        out.push(v);
        assert(values_view(out@) =~= values_view(prev).push(v@));
        at += 1;
        assert(values_view(out@) =~= target.take(at as int));
    }
    assert(target.take(items@.len() as int) =~= target);
    Ok(out)
}

/// A font's `/FirstChar`: absent or not an integer reads as zero; an integer that is not a
/// character code has no reading.
pub open spec fn first_char_of(d: DocumentV, font: nat) -> Option<int> {
    match key_of(d, font, spec_first_char()) {
        Some(ValueV::Integer(v)) => if 0 <= v <= max_code() { Some(v) } else { None },
        _ => Some(0),
    }
}

/// A font's `/FirstChar`.
///
/// # Errors
///
/// `Malformed` when it is an integer that is not a character code: read as zero, the
/// `/Widths` offsets would be that many entries out and a kept glyph's width zeroed.
pub fn first_char(d: &Document, font: usize) -> (r: Result<u32>)
    ensures
        r is Ok <==> first_char_of(d@, font as nat) is Some,
        r is Ok ==> r->Ok_0 == first_char_of(d@, font as nat)->0,
        r is Err ==> r->Err_0 is Malformed,
{
    let k = crate::names::first_char();
    match d.get(font, &k) {
        Some(Value::Integer(v)) => {
            if *v < 0 || *v > u32::MAX as i64 {
                Err(Error::Malformed(
                    "pdf redaction [first-char]: a font whose /FirstChar is not a character code".to_owned(),
                ))
            } else {
                Ok(*v as u32)
            }
        },
        _ => Ok(0),
    }
}

/// The `/Differences` array of a font, through its `/Encoding` dictionary.
pub open spec fn differences_of(d: DocumentV, font: nat) -> Option<nat> {
    match dictionary_target(d, key_of(d, font, spec_encoding())) {
        Some(e) => array_target(d, key_of(d, e, spec_differences())),
        None => None,
    }
}

/// The `/Widths` array of a font.
pub open spec fn widths_of(d: DocumentV, font: nat) -> Option<nat> {
    array_target(d, key_of(d, font, spec_widths()))
}

/// The document after the `/Differences` step of narrowing `font` to `keeps`.
pub open spec fn after_differences(d: DocumentV, font: nat, keeps: Set<u32>) -> DocumentV {
    match differences_of(d, font) {
        Some(a) => with_array(d, a, narrowed_differences(array_items(d, a), keeps)),
        None => d,
    }
}

/// The document after both steps.
pub open spec fn narrowed_font(d: DocumentV, font: nat, keeps: Set<u32>) -> DocumentV {
    let mid = after_differences(d, font, keeps);
    match widths_of(mid, font) {
        Some(w) => with_array(mid, w, narrowed_widths(array_items(mid, w), first_char_of(mid, font)->0, keeps)),
        None => mid,
    }
}

/// Whether narrowing `font` can be done: its `/Differences` within the ceiling with every
/// anchor a code, and its `/Widths` within the ceiling with a `/FirstChar` that is a code.
pub open spec fn font_narrowable(d: DocumentV, font: nat, keeps: Set<u32>) -> bool {
    &&& match differences_of(d, font) {
        Some(a) => array_items(d, a).len() <= DIFFERENCES_CEILING && anchors_valid(array_items(d, a)),
        None => true,
    }
    &&& {
        let mid = after_differences(d, font, keeps);
        match widths_of(mid, font) {
            Some(w) => first_char_of(mid, font) is Some && array_items(mid, w).len() <= DIFFERENCES_CEILING,
            None => true,
        }
    }
}

/// Remove a font's `/Differences` names and `/Widths` entries for the codes not in `keeps`.
///
/// # Errors
///
/// `Unsupported` for an array past the ceiling; `Malformed` for an anchor or a `/FirstChar`
/// that is not a character code. The document may be part-edited then, and must be discarded.
pub fn narrow_font(d: &mut Document, font: usize, keeps: &BTreeSet<u32>) -> (r: Result<()>)
    ensures
        r is Ok <==> font_narrowable(old(d)@, font as nat, keeps@),
        r is Ok ==> final(d)@ == narrowed_font(old(d)@, font as nat, keeps@),
        r is Err ==> r->Err_0 is Unsupported || r->Err_0 is Malformed,
{
    let ghost before = d@;
    let encoding_key = encoding();
    let encoding_at = d.dictionary_target(d.get(font, &encoding_key));
    match encoding_at {
        Some(e) => {
            let differences_key = differences();
            let array = d.array_target(d.get(e, &differences_key));
            match array {
                Some(a) => {
                    let items = d.array_items(a);
                    let narrowed = narrow_differences_items(&items, keeps)?;
                    d.set_array(a, narrowed);
                },
                None => {},
            }
        },
        None => {},
    }
    assert(d@ == after_differences(before, font as nat, keeps@));
    let widths_key = widths();
    let widths_at = d.array_target(d.get(font, &widths_key));
    match widths_at {
        Some(w) => {
            let first = first_char(d, font)?;
            let items = d.array_items(w);
            let narrowed = narrow_widths_items(&items, first, keeps)?;
            d.set_array(w, narrowed);
        },
        None => {},
    }
    Ok(())
}

/// The code in effect after the first `n` items as the read-back walks them: an anchor that is
/// not a character code is passed over rather than taken, a name takes the next code, and
/// codes saturate at the largest code.
pub open spec fn read_code(items: Seq<ValueV>, n: int) -> int
    decreases n,
{
    if n <= 0 {
        0
    } else {
        match items[n - 1] {
            ValueV::Integer(v) => if 0 <= v <= max_code() { v } else { read_code(items, n - 1) },
            ValueV::Name(_) => {
                let c = read_code(items, n - 1);
                if c < max_code() { c + 1 } else { c }
            },
            _ => read_code(items, n - 1),
        }
    }
}

/// The codes a `/Differences` array gives a name, as the read-back reads it.
pub open spec fn mapped_by_differences(items: Seq<ValueV>) -> Set<u32> {
    Set::new(|c: u32| exists|i: int| 0 <= i < items.len() && items[i] is Name && #[trigger] read_code(items, i) == c as int)
}

/// With every anchor a code, the read-back walks an array as narrowing does.
proof fn lemma_read_code_agrees(items: Seq<ValueV>, n: int)
    requires
        anchors_valid(items),
        n <= items.len(),
    ensures
        read_code(items, n) == code_after(items, n),
    decreases n,
{
    if n > 0 {
        lemma_read_code_agrees(items, n - 1);
        assert(items[n - 1] matches ValueV::Integer(v) ==> 0 <= v <= max_code());
    }
}

/// A name at code `c` has a last name at `c` at or after it.
proof fn lemma_last_name_at(items: Seq<ValueV>, c: int, i: int) -> (j: int)
    requires
        0 <= i < items.len(),
        items[i] is Name,
        code_after(items, i) == c,
    ensures
        i <= j < items.len(),
        items[j] is Name,
        code_after(items, j) == c,
        is_last_at_code(items, j),
    decreases items.len() - i,
{
    if named_from(items, c, i + 1) {
        let k = choose|k: int| i + 1 <= k < items.len() && items[k] is Name && #[trigger] code_after(items, k) == c;
        lemma_last_name_at(items, c, k)
    } else {
        i
    }
}

/// What the read-back finds mapped in a narrowed `/Differences` is exactly what was mapped
/// before and kept: no removed code keeps a name, and no kept one loses its name.
pub proof fn lemma_read_back_finds_exactly_the_kept_codes(items: Seq<ValueV>, keeps: Set<u32>)
    requires
        anchors_valid(items),
        below_saturation(items),
    ensures
        mapped_by_differences(narrowed_differences(items, keeps)) == mapped_by_differences(items).intersect(keeps),
{
    let out = narrowed_differences(items, keeps);
    let len = items.len() as int;
    assert forall|n: int| 0 <= n <= len implies code_after(out, n) == code_after(items, n) by {
        lemma_codes_unchanged(items, keeps, n);
    }
    assert forall|n: int| 0 <= n <= len implies read_code(items, n) == code_after(items, n) by {
        lemma_read_code_agrees(items, n);
    }
    assert(anchors_valid(out)) by {
        assert forall|i: int| 0 <= i < out.len() implies (#[trigger] out[i] matches ValueV::Integer(v) ==> 0 <= v <= max_code()) by {
            if !survives(items, keeps, i) {
                lemma_code_in_range(items, i);
                assert(code_after(items, i) < max_code());
            } else {
                assert(items[i] matches ValueV::Integer(v) ==> 0 <= v <= max_code());
            }
        }
    }
    assert forall|n: int| 0 <= n <= len implies read_code(out, n) == code_after(out, n) by {
        lemma_read_code_agrees(out, n);
    }
    assert forall|c: u32| mapped_by_differences(out).contains(c) <==> (mapped_by_differences(items).contains(c) && keeps.contains(c)) by {
        if mapped_by_differences(out).contains(c) {
            let i = choose|i: int| 0 <= i < out.len() && out[i] is Name && #[trigger] read_code(out, i) == c as int;
            assert(survives(items, keeps, i));
            assert(read_code(items, i) == c as int);
            lemma_code_in_range(items, i);
        }
        if mapped_by_differences(items).contains(c) && keeps.contains(c) {
            let i = choose|i: int| 0 <= i < items.len() && items[i] is Name && #[trigger] read_code(items, i) == c as int;
            let j = lemma_last_name_at(items, c as int, i);
            assert(survives(items, keeps, j));
            assert(out[j] == items[j]);
            assert(read_code(out, j) == c as int);
        }
    }
    assert(mapped_by_differences(out) =~= mapped_by_differences(items).intersect(keeps));
}

/// The codes a `/Differences` array gives a name, walked as the read-back walks it.
pub fn differences_codes(items: &Vec<Value>) -> (r: BTreeSet<u32>)
    ensures
        r@ == mapped_by_differences(values_view(items@)),
{
    let ghost vs = values_view(items@);
    let mut out: BTreeSet<u32> = BTreeSet::new();
    let mut code: u32 = 0;
    let mut at: usize = 0;
    while at < items.len()
        invariant
            vs == values_view(items@),
            at <= items@.len(),
            code as int == read_code(vs, at as int),
            forall|c: u32| #[trigger] out@.contains(c) <==> exists|j: int| 0 <= j < at && vs[j] is Name && read_code(vs, j) == c as int,
        decreases items.len() - at,
    {
        assert(vs[at as int] == items@[at as int]@);
        match &items[at] {
            Value::Integer(v) => {
                if 0 <= *v && *v <= 4_294_967_295i64 {
                    code = *v as u32;
                }
            },
            Value::Name(_) => {
                let ghost before = out@;
                out.insert(code);
                proof {
                    assert forall|c: u32| #[trigger] out@.contains(c) <==> exists|j: int| 0 <= j < at + 1 && vs[j] is Name && read_code(vs, j) == c as int by {
                        if c == code {
                            assert(vs[at as int] is Name && read_code(vs, at as int) == c as int);
                        }
                        if exists|j: int| 0 <= j < at + 1 && vs[j] is Name && read_code(vs, j) == c as int {
                            let j = choose|j: int| 0 <= j < at + 1 && vs[j] is Name && read_code(vs, j) == c as int;
                            if j < at {
                                assert(before.contains(c));
                            }
                        }
                    }
                }
                code = code.saturating_add(1);
            },
            _ => {},
        }
        at += 1;
    }
    assert(out@ =~= mapped_by_differences(vs));
    out
}

/// The codes font `font`'s `/Differences` gives a name, through its `/Encoding` dictionary:
/// the part of what the read-back finds mapped that `/Differences` contributes.
pub fn mapped_differences(d: &Document, font: usize) -> (r: BTreeSet<u32>)
    ensures
        r@ == match differences_of(d@, font as nat) {
            Some(a) => mapped_by_differences(array_items(d@, a)),
            None => Set::empty(),
        },
{
    let encoding_key = encoding();
    match d.dictionary_target(d.get(font, &encoding_key)) {
        Some(e) => {
            let differences_key = differences();
            match d.array_target(d.get(e, &differences_key)) {
                Some(a) => {
                    let items = d.array_items(a);
                    differences_codes(&items)
                },
                None => BTreeSet::new(),
            }
        },
        None => BTreeSet::new(),
    }
}

/// The codes font `font`'s `/Differences` gives a name.
pub open spec fn differences_codes_of(d: DocumentV, font: nat) -> Set<u32> {
    match differences_of(d, font) {
        Some(a) => mapped_by_differences(array_items(d, a)),
        None => Set::empty(),
    }
}

/// The fonts resource dictionary `res` names under `/Font`, the first entry with each key,
/// that are dictionaries.
pub open spec fn fonts_named(d: DocumentV, res: nat) -> Set<nat> {
    match dictionary_target(d, key_of(d, res, spec_font())) {
        Some(f) => Set::new(
            |x: nat|
                exists|j: int| 0 <= j < entries_of(d.objects[f as int]).len() && first_key(entries_of(d.objects[f as int]), j)
                    && #[trigger] dictionary_target(d, Some(entries_of(d.objects[f as int])[j].1)) == Some(x),
        ),
        None => Set::empty(),
    }
}

/// The fonts page `page` draws against: those its resource dictionary, its own or inherited,
/// names.
pub open spec fn page_fonts_named(d: DocumentV, page: nat) -> Set<nat> {
    match page_resources(d, page) {
        Some(Some(res)) => fonts_named(d, res),
        _ => Set::empty(),
    }
}

/// For each font page `page` draws against, keyed on the font object, the codes its
/// `/Differences` gives a name: the `/Differences` part of what the read-back finds mapped on
/// the page. Checkpointed before the page and before each font, since the number of fonts is
/// the file's to choose.
///
/// # Errors
///
/// - `Malformed` for a page whose `/Parent` chain is deeper than the climb to its resources.
/// - `LimitExceeded` for `max_duration_ms`.
pub fn differences_by_font<C: Clock>(d: &Document, page: usize, deadline: &Deadline, clock: &C) -> (r: Result<
    BTreeMap<usize, BTreeSet<u32>>,
>)
    ensures
        r is Ok ==> page_resources(d@, page as nat) is Some,
        r is Ok ==> forall|x: usize| #[trigger] r->Ok_0@.contains_key(x) <==> page_fonts_named(d@, page as nat).contains(x as nat),
        r is Ok ==> forall|x: usize| #[trigger] r->Ok_0@.contains_key(x) ==> r->Ok_0@[x]@ == differences_codes_of(d@, x as nat),
        r is Err ==> (r->Err_0 is Malformed && page_resources(d@, page as nat) is None) || (r->Err_0 is LimitExceeded
            && r->Err_0->stage == Stage::Duration && r->Err_0->allowed == deadline.budget),
        deadline.holds_for(clock) && page_resources(d@, page as nat) is Some ==> r is Ok,
{
    deadline.checkpoint(clock)?;
    let mut mapped: BTreeMap<usize, BTreeSet<u32>> = BTreeMap::new();
    let res = match inherited_resources(d, page)? {
        Some(res) => res,
        None => {
            assert(page_fonts_named(d@, page as nat) =~= Set::empty());
            return Ok(mapped);
        },
    };
    let fk = font();
    let fonts = match d.dictionary_target(d.get(res, &fk)) {
        Some(f) => f,
        None => {
            assert(page_fonts_named(d@, page as nat) =~= Set::empty());
            return Ok(mapped);
        },
    };
    let entries = match &d.objects[fonts].body {
        Body::Dictionary(es) => es,
        _ => {
            assert(page_fonts_named(d@, page as nat) =~= Set::empty());
            return Ok(mapped);
        },
    };
    let ghost es = entries_of(d@.objects[fonts as int]);
    assert(entries_view(entries@) == es);
    let ghost named = page_fonts_named(d@, page as nat);
    let mut j: usize = 0;
    while j < entries.len()
        invariant
            j <= entries@.len(),
            entries_view(entries@) == es,
            es == entries_of(d@.objects[fonts as int]),
            named == page_fonts_named(d@, page as nat),
            named == Set::new(
                |x: nat|
                    exists|i: int| 0 <= i < es.len() && first_key(es, i) && #[trigger] dictionary_target(d@, Some(es[i].1)) == Some(x),
            ),
            forall|x: usize| #[trigger] mapped@.contains_key(x) <==> exists|i: int| 0 <= i < j && first_key(es, i)
                && #[trigger] dictionary_target(d@, Some(es[i].1)) == Some(x as nat),
            forall|x: usize| #[trigger] mapped@.contains_key(x) ==> mapped@[x]@ == differences_codes_of(d@, x as nat),
        decreases entries.len() - j,
    {
        deadline.checkpoint(clock)?;
        assert(es[j as int].1 == entries@[j as int].value@);
        if is_first(entries, j) {
            match d.dictionary_target(Some(&entries[j].value)) {
                Some(f) => {
                    let codes = mapped_differences(d, f);
                    let ghost before = mapped@;
                    mapped.insert(f, codes);
                    proof {
                        assert forall|x: usize| #[trigger] mapped@.contains_key(x) <==> exists|i: int| 0 <= i < j + 1 && first_key(es, i)
                            && #[trigger] dictionary_target(d@, Some(es[i].1)) == Some(x as nat) by {
                            if x == f {
                                assert(dictionary_target(d@, Some(es[j as int].1)) == Some(x as nat));
                            } else if exists|i: int| 0 <= i < j + 1 && first_key(es, i) && #[trigger] dictionary_target(d@, Some(es[i].1)) == Some(x as nat) {
                                let i = choose|i: int| 0 <= i < j + 1 && first_key(es, i) && #[trigger] dictionary_target(d@, Some(es[i].1)) == Some(x as nat);
                                assert(i < j);
                                assert(before.contains_key(x));
                            }
                        }
                    }
                },
                None => {
                    proof {
                        assert forall|x: usize| #[trigger] mapped@.contains_key(x) <==> exists|i: int| 0 <= i < j + 1 && first_key(es, i)
                            && #[trigger] dictionary_target(d@, Some(es[i].1)) == Some(x as nat) by {
                            if exists|i: int| 0 <= i < j + 1 && first_key(es, i) && #[trigger] dictionary_target(d@, Some(es[i].1)) == Some(x as nat) {
                                let i = choose|i: int| 0 <= i < j + 1 && first_key(es, i) && #[trigger] dictionary_target(d@, Some(es[i].1)) == Some(x as nat);
                                assert(i < j);
                            }
                        }
                    }
                },
            }
        } else {
            proof {
                assert forall|x: usize| #[trigger] mapped@.contains_key(x) <==> exists|i: int| 0 <= i < j + 1 && first_key(es, i)
                    && #[trigger] dictionary_target(d@, Some(es[i].1)) == Some(x as nat) by {
                    if exists|i: int| 0 <= i < j + 1 && first_key(es, i) && #[trigger] dictionary_target(d@, Some(es[i].1)) == Some(x as nat) {
                        let i = choose|i: int| 0 <= i < j + 1 && first_key(es, i) && #[trigger] dictionary_target(d@, Some(es[i].1)) == Some(x as nat);
                        assert(i < j);
                    }
                }
            }
        }
        j += 1;
    }
    proof {
        assert forall|x: usize| #[trigger] mapped@.contains_key(x) <==> named.contains(x as nat) by {
            if named.contains(x as nat) {
                assert(exists|i: int| 0 <= i < es.len() && first_key(es, i) && #[trigger] dictionary_target(d@, Some(es[i].1)) == Some(x as nat));
            }
        }
    }
    Ok(mapped)
}

} // verus!
