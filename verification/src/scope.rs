//! Which resources a name means where it is used: a page's `/Resources`, inherited when the
//! page declares none; a Form XObject's own; the font a glyph was drawn with, resolved in the
//! stream that named it; and the base encoding a simple font names.

use vstd::prelude::*;

use crate::error::{internal, malformed, Result};
use crate::graph::{
    dictionary_target, entries_of, entries_view, key_of, opt_view, same_name, target, Body, Document,
    DocumentV, Value, ValueV,
};
use crate::names::{
    base_encoding_key, encoding, font, resources, spec_base_encoding_key, spec_encoding, spec_font,
    spec_resources, spec_win_ansi_encoding, spec_x_object, win_ansi_encoding, x_object,
};
use crate::page_content::data_of;
use crate::sharing::{inherited_resources, page_resources};

verus! {

/// Which base encoding a simple font's `/Encoding` names.
#[derive(Debug, Clone, Copy, PartialEq, Eq, Structural)]
pub enum BaseEncoding {
    /// The standard encoding, which a font that names no base encoding uses.
    Standard,
    /// `/WinAnsiEncoding`.
    WinAnsi,
}

/// Whether `v` is the name `want`.
pub open spec fn is_name(v: Option<ValueV>, want: Seq<u8>) -> bool {
    match v {
        Some(ValueV::Name(n)) => n == want,
        _ => false,
    }
}

/// The base encoding font `font` names: `/Encoding` itself when it is a name, or the
/// `/BaseEncoding` inside an `/Encoding` dictionary. Anything else, a dictionary with only
/// `/Differences` included, is the standard encoding.
pub open spec fn base_encoding_of(d: DocumentV, font: nat) -> BaseEncoding {
    let e = key_of(d, font, spec_encoding());
    match e {
        Some(ValueV::Name(n)) => if n == spec_win_ansi_encoding() {
            BaseEncoding::WinAnsi
        } else {
            BaseEncoding::Standard
        },
        _ => match dictionary_target(d, e) {
            Some(x) => if is_name(key_of(d, x, spec_base_encoding_key()), spec_win_ansi_encoding()) {
                BaseEncoding::WinAnsi
            } else {
                BaseEncoding::Standard
            },
            None => BaseEncoding::Standard,
        },
    }
}

/// Whether a value is the name `want`: a value that is not a name is not the name asked
/// about, which is `false` rather than an error.
pub fn names(v: Option<&Value>, want: &[u8]) -> (r: bool)
    ensures
        r == is_name(opt_view(v), want@),
{
    match v {
        Some(Value::Name(n)) => same_name(n.as_slice(), want),
        _ => false,
    }
}

/// Which base encoding font `font` names.
pub fn base_encoding(d: &Document, font: usize) -> (r: BaseEncoding)
    ensures
        r == base_encoding_of(d@, font as nat),
{
    let ek = encoding();
    let win = win_ansi_encoding();
    let e = d.get(font, &ek);
    match e {
        Some(Value::Name(n)) => {
            if same_name(n.as_slice(), &win) {
                BaseEncoding::WinAnsi
            } else {
                BaseEncoding::Standard
            }
        },
        _ => match d.dictionary_target(e) {
            Some(x) => {
                let bk = base_encoding_key();
                if names(d.get(x, &bk), &win) {
                    BaseEncoding::WinAnsi
                } else {
                    BaseEncoding::Standard
                }
            },
            None => BaseEncoding::Standard,
        },
    }
}

/// An optional index, as a number.
pub open spec fn opt_nat(v: Option<usize>) -> Option<nat> {
    match v {
        Some(x) => Some(x as nat),
        None => None,
    }
}

/// The resource dictionary `owner` draws against: its own, else the nearest ancestor's; none
/// when neither declares one, and none when the `/Parent` chain runs past the climb.
pub open spec fn resources_of_spec(d: DocumentV, owner: nat) -> Option<nat> {
    match page_resources(d, owner) {
        Some(r) => r,
        None => None,
    }
}

/// `owner`'s resource dictionary, climbing `/Parent` when it declares none.
///
/// A chain that does not end within the climb yields no resources rather than an error: a
/// page with none then names no font, and each use of one is refused as missing.
pub fn resources_of(d: &Document, owner: usize) -> (r: Option<usize>)
    ensures
        opt_nat(r) == resources_of_spec(d@, owner as nat),
{
    match inherited_resources(d, owner) {
        Ok(r) => r,
        Err(_) => None,
    }
}

/// The stream a value refers to, when it refers to one.
pub open spec fn stream_target(d: DocumentV, v: Option<ValueV>) -> Option<nat> {
    match target(d, v) {
        Some(i) => if d.objects[i as int].body is Stream { Some(i) } else { None },
        None => None,
    }
}

/// The stream `v` refers to, when it refers to one.
pub fn stream_target_of(d: &Document, v: Option<&Value>) -> (r: Option<usize>)
    ensures
        opt_nat(r) == stream_target(d@, opt_view(v)),
{
    match d.target(v) {
        Some(i) => match &d.objects[i].body {
            Body::Stream(_, _) => Some(i),
            _ => None,
        },
        None => None,
    }
}

/// The own resource dictionary of the form `resources` lists as `name`: none for an image, a
/// name the resources do not have, or a form that declares none and so draws against the
/// resources around it.
pub open spec fn within_spec(d: DocumentV, resources: nat, name: Seq<u8>) -> Option<nat> {
    match dictionary_target(d, key_of(d, resources, spec_x_object())) {
        None => None,
        Some(x) => match stream_target(d, key_of(d, x, name)) {
            None => None,
            Some(f) => dictionary_target(d, key_of(d, f, spec_resources())),
        },
    }
}

/// The resources a form named `name` in `resources` draws against, when it declares its
/// own.
pub fn within(d: &Document, resources_at: usize, name: &[u8]) -> (r: Option<usize>)
    ensures
        opt_nat(r) == within_spec(d@, resources_at as nat, name@),
{
    let xk = x_object();
    let rk = resources();
    match d.dictionary_target(d.get(resources_at, &xk)) {
        None => None,
        Some(x) => match stream_target_of(d, d.get(x, name)) {
            None => None,
            Some(f) => d.dictionary_target(d.get(f, &rk)),
        },
    }
}

/// A font as a glyph selected it: its resource name, and the form whose content named it,
/// by object, when a form did.
#[derive(Debug, Clone, PartialEq, Eq)]
pub struct ScopedFont {
    /// The resource name, without its leading `/`.
    pub name: Vec<u8>,
    /// The form whose content selected the font; none for the page's own content.
    pub drawn_in: Option<usize>,
}

/// The font dictionary `resources` lists as `name`.
pub open spec fn font_in(d: DocumentV, resources: Option<nat>, name: Seq<u8>) -> Option<nat> {
    match resources {
        None => None,
        Some(r) => match dictionary_target(d, key_of(d, r, spec_font())) {
            None => None,
            Some(f) => dictionary_target(d, key_of(d, f, name)),
        },
    }
}

/// Whether the page's `/XObject` lists the form `id`, under any name.
pub open spec fn lists_form(d: DocumentV, resources: nat, id: nat) -> bool {
    match dictionary_target(d, key_of(d, resources, spec_x_object())) {
        None => false,
        Some(x) => exists|k: int| 0 <= k < entries_of(d.objects[x as int]).len()
            && #[trigger] stream_target(d, key_of(d, x, entries_of(d.objects[x as int])[k].0)) == Some(id),
    }
}

/// The font a glyph selected, in the stream that named it: the form's own `/Resources`
/// first, when the page lists that form, then the page's.
pub open spec fn scoped_font(d: DocumentV, resources: nat, name: Seq<u8>, drawn_in: Option<nat>) -> Option<nat> {
    let own = match drawn_in {
        Some(id) => if lists_form(d, resources, id) {
            font_in(d, dictionary_target(d, key_of(d, id, spec_resources())), name)
        } else {
            None
        },
        None => None,
    };
    if own is Some {
        own
    } else {
        font_in(d, Some(resources), name)
    }
}

/// The message for a font that resolves nowhere.
pub open spec fn unresolved_font_message() -> Seq<char> {
    "pdf resources: a font the walk drew a glyph with resolves in neither the form's own resources nor the page's"@
}

/// The font dictionary `name` means in `resources` itself.
fn font_named(d: &Document, resources_at: Option<usize>, name: &[u8]) -> (r: Option<usize>)
    ensures
        opt_nat(r) == font_in(d@, opt_nat(resources_at), name@),
{
    match resources_at {
        None => None,
        Some(at) => {
            let fk = font();
            match d.dictionary_target(d.get(at, &fk)) {
                None => None,
                Some(f) => d.dictionary_target(d.get(f, name)),
            }
        },
    }
}

/// Whether the `/XObject` dictionary of `resources_at` lists the form `id`.
fn lists_form_of(d: &Document, resources_at: usize, id: usize) -> (r: bool)
    ensures
        r == lists_form(d@, resources_at as nat, id as nat),
{
    let xk = x_object();
    let x = match d.dictionary_target(d.get(resources_at, &xk)) {
        None => {
            return false;
        },
        Some(x) => x,
    };
    let entries = match &d.objects[x].body {
        Body::Dictionary(e) => e,
        _ => {
            return false;
        },
    };
    assert(entries_view(entries@) == entries_of(d@.objects[x as int]));
    let ghost es = entries_of(d@.objects[x as int]);
    let mut k: usize = 0;
    while k < entries.len()
        invariant
            x < d@.objects.len(),
            dictionary_target(d@, key_of(d@, resources_at as nat, spec_x_object())) == Some(x as nat),
            entries_view(entries@) == es,
            es == entries_of(d@.objects[x as int]),
            k <= entries@.len(),
            forall|j: int| 0 <= j < k ==> #[trigger] stream_target(d@, key_of(d@, x as nat, es[j].0)) != Some(id as nat),
        decreases entries.len() - k,
    {
        assert(es[k as int].0 == entries@[k as int].key@);
        let entry = d.get(x, entries[k].key.as_slice());
        if stream_target_of(d, entry) == Some(id) {
            assert(stream_target(d@, key_of(d@, x as nat, es[k as int].0)) == Some(id as nat));
            assert(dictionary_target(d@, key_of(d@, resources_at as nat, spec_x_object())) == Some(x as nat));
            assert(0 <= k < es.len());
            assert(lists_form(d@, resources_at as nat, id as nat));
            return true;
        }
        k += 1;
    }
    false
}

/// The font dictionary a glyph's [`ScopedFont`] selects, in the stream that named it: its
/// own form's `/Resources` first, then the page's `resources_at`.
///
/// # Errors
///
/// `Internal` when the name resolves in neither. The walk already placed a glyph through it,
/// so this is the library disagreeing with itself rather than the document being wrong.
pub fn font_in_scope(d: &Document, resources_at: usize, font: &ScopedFont) -> (r: Result<usize>)
    ensures
        match scoped_font(d@, resources_at as nat, font.name@, opt_nat(font.drawn_in)) {
            Some(f) => r is Ok && r->Ok_0 == f,
            None => r is Err && r->Err_0 is Internal && r->Err_0->Internal_0@ == unresolved_font_message(),
        },
{
    if let Some(id) = font.drawn_in {
        if lists_form_of(d, resources_at, id) {
            let rk = resources();
            let own = d.dictionary_target(d.get(id, &rk));
            if let Some(found) = font_named(d, own, font.name.as_slice()) {
                return Ok(found);
            }
        }
    }
    match font_named(d, Some(resources_at), font.name.as_slice()) {
        Some(found) => Ok(found),
        None => Err(internal(
            "pdf resources: a font the walk drew a glyph with resolves in neither the form's own resources nor the page's",
        )),
    }
}

/// The message for a form the page's resources do not list.
pub open spec fn vanished_form_message() -> Seq<char> {
    "pdf redaction [form-vanished]: a form the walk found is not in the page's resources"@
}

/// The form with identity `id`, as the page's `/XObject` lists it.
///
/// # Errors
///
/// `Malformed` naming `form-vanished` when the page's resources do not list it.
pub fn form_handle(d: &Document, resources_at: usize, id: usize) -> (r: Result<usize>)
    ensures
        r is Ok <==> lists_form(d@, resources_at as nat, id as nat),
        r is Ok ==> r->Ok_0 == id,
        r is Err ==> r->Err_0 is Malformed && r->Err_0->Malformed_0@ == vanished_form_message(),
{
    if lists_form_of(d, resources_at, id) {
        Ok(id)
    } else {
        Err(malformed("pdf redaction [form-vanished]: a form the walk found is not in the page's resources"))
    }
}

/// The content of the form with identity `id`, as the page's `/XObject` lists it.
///
/// # Errors
///
/// As [`form_handle`].
pub fn find_form(d: &Document, resources_at: usize, id: usize) -> (r: Result<Vec<u8>>)
    ensures
        r is Ok <==> lists_form(d@, resources_at as nat, id as nat),
        r is Ok ==> r->Ok_0@ == data_of(d@, id as nat),
        r is Err ==> r->Err_0 is Malformed && r->Err_0->Malformed_0@ == vanished_form_message(),
{
    let at = form_handle(d, resources_at, id)?;
    match &d.objects[at].body {
        Body::Stream(_, data) => {
            let copy = data.clone();
            assert(copy@ =~= data_of(d@, id as nat));
            Ok(copy)
        },
        _ => Ok(Vec::new()),
    }
}

} // verus!
