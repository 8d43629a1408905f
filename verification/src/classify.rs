//! Classification of failed responses.
//!
//! A failed response declares its body format in the content-type header.
//! A markup body carries repeating `error` groups with `errorCode`,
//! `errorMessage` and `trackingId` sub-elements; a structured-document body
//! carries an `errorList` object of error objects with the same fields.
//! Either yields one structured error per group, all sharing the response's
//! status code.  A response whose declared format is neither, or whose body
//! yields no group at all, cannot be classified: zero extracted errors is
//! itself a classification failure, never a silent empty result.

use vstd::prelude::*;

use crate::document::{display_of, spec_get, spec_lookup, SpecValue, Value};
use crate::errors::{AlmaError, ClientError, SpecAlmaError};
use crate::markup::{scan_markup, spec_scan, Event, SpecEvent};
use crate::text::{
    chars_range_to_string, find_at, find_char, lemma_unescape_plain, spec_unescape, str_chars,
    str_eq, unescape_text,
};

verus! {

/// The three sub-element fields of an error group.
#[derive(Clone, Copy, PartialEq, Eq, Structural)]
pub enum ErrField {
    Code,
    Message,
    Tracking,
}

/// The element name that carries each field.
pub open spec fn field_elem_name(f: ErrField) -> Seq<char> {
    match f {
        ErrField::Code => "errorCode"@,
        ErrField::Message => "errorMessage"@,
        ErrField::Tracking => "trackingId"@,
    }
}

/// A freshly opened error group: all fields empty, status shared.
pub open spec fn blank_error(status: u16) -> SpecAlmaError {
    SpecAlmaError {
        status_code: status,
        error_code: Seq::empty(),
        error_message: Seq::empty(),
        tracking_id: Seq::empty(),
    }
}

pub open spec fn set_field(e: SpecAlmaError, f: ErrField, v: Seq<char>) -> SpecAlmaError {
    match f {
        ErrField::Code => SpecAlmaError { error_code: v, ..e },
        ErrField::Message => SpecAlmaError { error_message: v, ..e },
        ErrField::Tracking => SpecAlmaError { tracking_id: v, ..e },
    }
}

/// Where the markup fold stands: between elements, or inside one field
/// element of the latest group.
pub enum ClsMode {
    Outside,
    InField { field: ErrField, acc: Seq<char> },
}

pub struct ClsState {
    pub errors: Seq<SpecAlmaError>,
    pub mode: ClsMode,
}

pub open spec fn init_cls_state() -> ClsState {
    ClsState { errors: Seq::empty(), mode: ClsMode::Outside }
}

/// One step of the markup error fold.  `None` is a classification failure: a
/// field element before any group, markup inside a field, or a mismatched
/// closing tag there.
pub open spec fn cls_step(status: u16, st: ClsState, ev: SpecEvent) -> Option<ClsState> {
    match st.mode {
        ClsMode::Outside => match ev {
            SpecEvent::Open { name, attrs } => {
                if name == "error"@ {
                    Some(ClsState { errors: st.errors.push(blank_error(status)), ..st })
                } else if name == "errorCode"@ {
                    if st.errors.len() == 0 {
                        None
                    } else {
                        Some(
                            ClsState {
                                mode: ClsMode::InField { field: ErrField::Code, acc: Seq::empty() },
                                ..st
                            },
                        )
                    }
                } else if name == "errorMessage"@ {
                    if st.errors.len() == 0 {
                        None
                    } else {
                        Some(
                            ClsState {
                                mode: ClsMode::InField {
                                    field: ErrField::Message,
                                    acc: Seq::empty(),
                                },
                                ..st
                            },
                        )
                    }
                } else if name == "trackingId"@ {
                    if st.errors.len() == 0 {
                        None
                    } else {
                        Some(
                            ClsState {
                                mode: ClsMode::InField {
                                    field: ErrField::Tracking,
                                    acc: Seq::empty(),
                                },
                                ..st
                            },
                        )
                    }
                } else {
                    Some(st)
                }
            },
            _ => Some(st),
        },
        ClsMode::InField { field, acc } => match ev {
            SpecEvent::Text { text } => Some(
                ClsState {
                    mode: ClsMode::InField { field, acc: acc + spec_unescape(text) },
                    ..st
                },
            ),
            SpecEvent::Close { name } => {
                if name == field_elem_name(field) && st.errors.len() > 0 {
                    Some(
                        ClsState {
                            errors: st.errors.update(
                                st.errors.len() - 1,
                                set_field(st.errors.last(), field, acc),
                            ),
                            mode: ClsMode::Outside,
                        },
                    )
                } else {
                    None
                }
            },
            _ => None,
        },
    }
}

pub open spec fn cls_run(status: u16, st: ClsState, evs: Seq<SpecEvent>) -> Option<ClsState>
    decreases evs.len(),
{
    if evs.len() == 0 {
        Some(st)
    } else {
        match cls_step(status, st, evs[0]) {
            None => None,
            Some(st2) => cls_run(status, st2, evs.skip(1)),
        }
    }
}

pub proof fn lemma_cls_run_append(status: u16, st: ClsState, a: Seq<SpecEvent>, b: Seq<SpecEvent>)
    ensures
        cls_run(status, st, a + b) == (match cls_run(status, st, a) {
            None => None::<ClsState>,
            Some(m) => cls_run(status, m, b),
        }),
    decreases a.len(),
{
    if a.len() == 0 {
        assert(a + b =~= b);
    } else {
        assert((a + b)[0] == a[0]);
        match cls_step(status, st, a[0]) {
            None => {},
            Some(st2) => {
                assert((a + b).skip(1) =~= a.skip(1) + b);
                lemma_cls_run_append(status, st2, a.skip(1), b);
            },
        }
    }
}

/// What a markup error body classifies to.  `None` is a classification
/// failure; an empty sequence (no group found) is treated as one by the
/// executable classifier.
pub open spec fn spec_classify_xml(status: u16, s: Seq<char>) -> Option<Seq<SpecAlmaError>> {
    match spec_scan(s) {
        None => None,
        Some(evs) => match cls_run(status, init_cls_state(), evs) {
            None => None,
            Some(st) => match st.mode {
                ClsMode::Outside => Some(st.errors),
                ClsMode::InField { .. } => None,
            },
        },
    }
}

/// Classify a failed response's markup body: one structured error per
/// `error` group, all with this status code.  Fails when the body is
/// malformed or yields no group at all.
pub fn classify_xml_errors(status: u16, body: &str) -> (r: Result<Vec<AlmaError>, ClientError>)
    ensures
        match r {
            Ok(errs) => spec_classify_xml(status, body@) == Some(errs.deep_view()) && errs@.len()
                > 0,
            Err(e) => e is Decode && (spec_classify_xml(status, body@) is None
                || spec_classify_xml(status, body@) == Some(Seq::<SpecAlmaError>::empty())),
        },
{
    let chars = str_chars(body);
    let evs = match scan_markup(&chars) {
        None => {
            return Err(ClientError::decode("malformed markup in error body"));
        },
        Some(evs) => evs,
    };
    let ghost evs_dv = evs.deep_view();
    let mut errors: Vec<AlmaError> = Vec::new();
    let mut infield: Option<(ErrField, String)> = None;
    proof {
        assert(evs_dv.take(0) =~= Seq::<SpecEvent>::empty());
        assert(errors.deep_view() =~= Seq::<SpecAlmaError>::empty());
    }
    let mut k: usize = 0;
    while k < evs.len()
        invariant
            k <= evs@.len(),
            evs_dv == evs.deep_view(),
            evs_dv.len() == evs@.len(),
            spec_scan(body@) == Some(evs_dv),
            infield is Some ==> errors@.len() > 0,
            errors.deep_view().len() == errors@.len(),
            cls_run(status, init_cls_state(), evs_dv.take(k as int)) == Some(
                ClsState {
                    errors: errors.deep_view(),
                    mode: match &infield {
                        None => ClsMode::Outside,
                        Some((f, a)) => ClsMode::InField { field: *f, acc: a@ },
                    },
                },
            ),
        decreases evs@.len() - k,
    {
        let ghost st = ClsState {
            errors: errors.deep_view(),
            mode: match &infield {
                None => ClsMode::Outside,
                Some((f, a)) => ClsMode::InField { field: *f, acc: a@ },
            },
        };
        let ghost ev = evs_dv[k as int];
        proof {
            assert(evs_dv.take(k as int + 1) =~= evs_dv.take(k as int) + seq![ev]);
            lemma_cls_run_append(status, init_cls_state(), evs_dv.take(k as int), seq![ev]);
            assert(seq![ev][0] == ev);
            match cls_step(status, st, ev) {
                None => {
                    assert(cls_run(status, st, seq![ev]) is None);
                },
                Some(st2) => {
                    assert(seq![ev].skip(1) =~= Seq::<SpecEvent>::empty());
                    assert(cls_run(status, st2, seq![ev].skip(1)) == Some(st2));
                    assert(cls_run(status, st, seq![ev]) == Some(st2));
                },
            }
            assert(cls_run(status, init_cls_state(), evs_dv.take(k as int + 1)) == cls_step(
                status,
                st,
                ev,
            ));
            assert(evs@[k as int].deep_view() == ev);
        }
        let in_field = infield.is_some();
        match &evs[k] {
            Event::Open { name, attrs } => {
                if in_field {
                    proof {
                        assert(evs_dv =~= evs_dv.take(k as int + 1) + evs_dv.skip(k as int + 1));
                        lemma_cls_run_append(
                            status,
                            init_cls_state(),
                            evs_dv.take(k as int + 1),
                            evs_dv.skip(k as int + 1),
                        );
                    }
                    return Err(ClientError::decode("markup inside an error field"));
                }
                if str_eq(name.as_str(), "error") {
                    let ghost old_dv = errors.deep_view();
                    errors.push(
                        AlmaError {
                            status_code: status,
                            error_code: String::new(),
                            error_message: String::new(),
                            tracking_id: String::new(),
                        },
                    );
                    proof {
                        assert(errors.deep_view() =~= old_dv.push(blank_error(status)));
                    }
                } else {
                    let field: Option<ErrField> = if str_eq(name.as_str(), "errorCode") {
                        Some(ErrField::Code)
                    } else if str_eq(name.as_str(), "errorMessage") {
                        Some(ErrField::Message)
                    } else if str_eq(name.as_str(), "trackingId") {
                        Some(ErrField::Tracking)
                    } else {
                        None
                    };
                    match field {
                        Some(f) => {
                            if errors.len() == 0 {
                                proof {
                                    assert(cls_step(status, st, ev) is None);
                                    assert(evs_dv =~= evs_dv.take(k as int + 1) + evs_dv.skip(
                                        k as int + 1,
                                    ));
                                    lemma_cls_run_append(
                                        status,
                                        init_cls_state(),
                                        evs_dv.take(k as int + 1),
                                        evs_dv.skip(k as int + 1),
                                    );
                                }
                                return Err(
                                    ClientError::decode("error field outside any error group"),
                                );
                            }
                            infield = Some((f, String::new()));
                        },
                        None => {},
                    }
                }
            },
            Event::Empty { .. } => {
                if in_field {
                    proof {
                        assert(evs_dv =~= evs_dv.take(k as int + 1) + evs_dv.skip(k as int + 1));
                        lemma_cls_run_append(
                            status,
                            init_cls_state(),
                            evs_dv.take(k as int + 1),
                            evs_dv.skip(k as int + 1),
                        );
                    }
                    return Err(ClientError::decode("markup inside an error field"));
                }
            },
            Event::Close { name } => {
                if in_field {
                    let (f, acc) = match infield {
                        Some(p) => p,
                        None => (ErrField::Code, String::new()),  // unreachable: in_field holds
                    };
                    let name_matches = match f {
                        ErrField::Code => str_eq(name.as_str(), "errorCode"),
                        ErrField::Message => str_eq(name.as_str(), "errorMessage"),
                        ErrField::Tracking => str_eq(name.as_str(), "trackingId"),
                    };
                    if !name_matches {
                        proof {
                            assert(cls_step(status, st, ev) is None);
                            assert(evs_dv =~= evs_dv.take(k as int + 1) + evs_dv.skip(
                                k as int + 1,
                            ));
                            lemma_cls_run_append(
                                status,
                                init_cls_state(),
                                evs_dv.take(k as int + 1),
                                evs_dv.skip(k as int + 1),
                            );
                        }
                        return Err(
                            ClientError::decode("mismatched closing tag inside an error field"),
                        );
                    }
                    let ghost old_dv = errors.deep_view();
                    let ghost accv = acc@;
                    let last = match errors.pop() {
                        Some(e) => e,
                        None => {
                            proof {
                                assert(false);
                            }
                            return Err(ClientError::decode("unreachable"));
                        },
                    };
                    let updated = match f {
                        ErrField::Code => AlmaError { error_code: acc, ..last },
                        ErrField::Message => AlmaError { error_message: acc, ..last },
                        ErrField::Tracking => AlmaError { tracking_id: acc, ..last },
                    };
                    errors.push(updated);
                    infield = None;
                    proof {
                        assert(last.deep_view() == old_dv.last());
                        assert(updated.deep_view() == set_field(old_dv.last(), f, accv));
                        assert(errors.deep_view() =~= old_dv.update(
                            old_dv.len() - 1,
                            set_field(old_dv.last(), f, accv),
                        ));
                    }
                }
            },
            Event::Text { text } => {
                if in_field {
                    let resolved = unescape_text(text.as_str());
                    let joined = match infield {
                        Some((f, a)) => Some((f, a.concat(resolved.as_str()))),
                        None => None,  // unreachable: in_field holds
                    };
                    infield = joined;
                }
            },
        }
        k += 1;
    }
    proof {
        assert(evs_dv.take(evs_dv.len() as int) =~= evs_dv);
    }
    if infield.is_some() {
        return Err(ClientError::decode("unterminated error field"));
    }
    if errors.len() == 0 {
        return Err(ClientError::decode("no error group in error body"));
    }
    Ok(errors)
}

/// The reported text of one field of a structured-document error object:
/// the field's display text, or `null` when absent.
pub open spec fn field_display(v: SpecValue, key: Seq<char>) -> Seq<char> {
    match spec_get(v, key) {
        None => "null"@,
        Some(f) => display_of(f),
    }
}

/// The structured error one error object denotes.
pub open spec fn json_error_of(status: u16, v: SpecValue) -> SpecAlmaError {
    SpecAlmaError {
        status_code: status,
        error_code: field_display(v, "errorCode"@),
        error_message: field_display(v, "errorMessage"@),
        tracking_id: field_display(v, "trackingId"@),
    }
}

/// What a structured-document error body classifies to: one error per entry
/// of its `errorList` object, in order.  `None` when that object is absent.
pub open spec fn spec_classify_json(status: u16, doc: SpecValue) -> Option<Seq<SpecAlmaError>> {
    match spec_get(doc, "errorList"@) {
        Some(SpecValue::Obj(fields)) => Some(
            fields.map_values(|kv: (Seq<char>, SpecValue)| json_error_of(status, kv.1)),
        ),
        _ => None,
    }
}

fn field_display_exec(v: &Value, key: &str) -> (r: String)
    ensures
        r@ == field_display(v.dview(), key@),
{
    match v.get(key) {
        None => "null".to_owned(),
        Some(f) => f.display(),
    }
}

/// Classify a failed response's structured-document body: one error per
/// entry of its `errorList` object, all with this status code.  Fails when
/// that object is absent, of the wrong shape, or empty.
pub fn classify_json_errors(status: u16, doc: &Value) -> (r: Result<Vec<AlmaError>, ClientError>)
    ensures
        match r {
            Ok(errs) => spec_classify_json(status, doc.dview()) == Some(errs.deep_view())
                && errs@.len() > 0,
            Err(e) => e is Protocol && e->Protocol_status_code == status && (spec_classify_json(
                status,
                doc.dview(),
            ) is None || spec_classify_json(status, doc.dview()) == Some(
                Seq::<SpecAlmaError>::empty(),
            )),
        },
{
    match doc.get("errorList") {
        Some(el) => match el {
            Value::Obj(fields) => {
                let ghost fdv = crate::document::dview_obj(fields@);
                let ghost expected = fdv.map_values(
                    |kv: (Seq<char>, SpecValue)| json_error_of(status, kv.1),
                );
                proof {
                    crate::document::lemma_dview_obj(fields@);
                    assert(el.dview() == SpecValue::Obj(fdv));
                }
                if fields.len() == 0 {
                    assert(expected =~= Seq::<SpecAlmaError>::empty());
                    return Err(
                        ClientError::Protocol {
                            status_code: status,
                            content_type: Some("application/json".to_owned()),
                        },
                    );
                }
                let mut out: Vec<AlmaError> = Vec::new();
                let mut k: usize = 0;
                while k < fields.len()
                    invariant
                        k <= fields@.len(),
                        fdv == crate::document::dview_obj(fields@),
                        fdv.len() == fields@.len(),
                        forall|i: int|
                            0 <= i < fields@.len() ==> fdv[i] == (
                                fields@[i].0@,
                                fields@[i].1.dview(),
                            ),
                        out.deep_view().len() == k,
                        forall|i: int|
                            0 <= i < k ==> out.deep_view()[i] == json_error_of(
                                status,
                                fdv[i].1,
                            ),
                    decreases fields@.len() - k,
                {
                    let ghost old_dv = out.deep_view();
                    let code = field_display_exec(&fields[k].1, "errorCode");
                    let message = field_display_exec(&fields[k].1, "errorMessage");
                    let tracking = field_display_exec(&fields[k].1, "trackingId");
                    out.push(
                        AlmaError {
                            status_code: status,
                            error_code: code,
                            error_message: message,
                            tracking_id: tracking,
                        },
                    );
                    proof {
                        assert(out.deep_view() =~= old_dv.push(
                            json_error_of(status, fdv[k as int].1),
                        ));
                    }
                    k += 1;
                }
                proof {
                    assert(out.deep_view() =~= expected);
                }
                Ok(out)
            },
            _ => {
                return Err(
                    ClientError::Protocol {
                        status_code: status,
                        content_type: Some("application/json".to_owned()),
                    },
                );
            },
        },
        None => {
            return Err(
                ClientError::Protocol {
                    status_code: status,
                    content_type: Some("application/json".to_owned()),
                },
            );
        },
    }
}

/// The declared body format of a failed response: the part of the
/// content-type header before any `;` parameter decides.
pub enum BodyFormat {
    Xml,
    Json,
    Other,
}

pub open spec fn spec_media_type(s: Seq<char>) -> Seq<char> {
    s.take(find_at(s, ';', 0))
}

pub open spec fn spec_body_format(ct: Seq<char>) -> BodyFormat {
    if spec_media_type(ct) == "application/xml"@ {
        BodyFormat::Xml
    } else if spec_media_type(ct) == "application/json"@ {
        BodyFormat::Json
    } else {
        BodyFormat::Other
    }
}

/// The declared format of an error body.
pub fn body_format(content_type: &str) -> (r: BodyFormat)
    ensures
        r == spec_body_format(content_type@),
{
    let chars = str_chars(content_type);
    let semi = find_char(&chars, ';', 0);
    proof {
        crate::text::lemma_find_at(chars@, ';', 0);
        assert(chars@.subrange(0, find_at(chars@, ';', 0)) =~= spec_media_type(content_type@));
    }
    let media = chars_range_to_string(&chars, 0, semi);
    if str_eq(media.as_str(), "application/xml") {
        BodyFormat::Xml
    } else if str_eq(media.as_str(), "application/json") {
        BodyFormat::Json
    } else {
        BodyFormat::Other
    }
}

/// A synthetic markup error group for one (code, message, tracking) triple.
pub open spec fn spec_encode_group(t: (Seq<char>, Seq<char>, Seq<char>)) -> Seq<char> {
    seq!['<'] + "error"@ + seq!['>'] + crate::markup::spec_encode_elem("errorCode"@, t.0)
        + crate::markup::spec_encode_elem("errorMessage"@, t.1)
        + crate::markup::spec_encode_elem("trackingId"@, t.2) + seq!['<', '/'] + "error"@
        + seq!['>']
}

/// A synthetic markup error body: one group per triple, in order.
pub open spec fn spec_encode_error_body(ts: Seq<(Seq<char>, Seq<char>, Seq<char>)>) -> Seq<char>
    decreases ts.len(),
{
    if ts.len() == 0 {
        Seq::empty()
    } else {
        spec_encode_group(ts[0]) + spec_encode_error_body(ts.skip(1))
    }
}

/// The structured errors that a sequence of triples denotes under a status.
pub open spec fn errors_of(status: u16, ts: Seq<(Seq<char>, Seq<char>, Seq<char>)>) -> Seq<
    SpecAlmaError,
> {
    ts.map_values(
        |t: (Seq<char>, Seq<char>, Seq<char>)| SpecAlmaError {
            status_code: status,
            error_code: t.0,
            error_message: t.1,
            tracking_id: t.2,
        },
    )
}

/// One error object of a structured-document error body.
pub open spec fn spec_error_entry(t: (Seq<char>, Seq<char>, Seq<char>)) -> SpecValue {
    SpecValue::Obj(
        seq![
            ("errorCode"@, SpecValue::Str(t.0)),
            ("errorMessage"@, SpecValue::Str(t.1)),
            ("trackingId"@, SpecValue::Str(t.2)),
        ],
    )
}

/// The structured-document error body equivalent to a markup body with the
/// same triples: an `errorList` object with one entry per triple.
pub open spec fn spec_error_doc(
    keys: Seq<Seq<char>>,
    ts: Seq<(Seq<char>, Seq<char>, Seq<char>)>,
) -> SpecValue {
    SpecValue::Obj(
        seq![
            (
                "errorList"@,
                SpecValue::Obj(Seq::new(ts.len(), |i: int| (keys[i], spec_error_entry(ts[i])))),
            ),
        ],
    )
}

/// The (code, message, tracking) texts of a vector of string triples.
pub open spec fn triples_view(ts: Seq<(String, String, String)>) -> Seq<
    (Seq<char>, Seq<char>, Seq<char>),
> {
    Seq::new(ts.len(), |i: int| (ts[i].0@, ts[i].1@, ts[i].2@))
}

pub proof fn lemma_encode_groups_snoc(ts: Seq<(Seq<char>, Seq<char>, Seq<char>)>)
    requires
        ts.len() > 0,
    ensures
        spec_encode_error_body(ts) == spec_encode_error_body(ts.drop_last()) + spec_encode_group(
            ts.last(),
        ),
    decreases ts.len(),
{
    if ts.len() == 1 {
        assert(ts.drop_last() =~= Seq::<(Seq<char>, Seq<char>, Seq<char>)>::empty());
        assert(ts.skip(1) =~= Seq::<(Seq<char>, Seq<char>, Seq<char>)>::empty());
        assert(spec_encode_group(ts[0]) + Seq::<char>::empty() =~= spec_encode_group(ts[0]));
        assert(Seq::<char>::empty() + spec_encode_group(ts.last()) =~= spec_encode_group(ts[0]));
    } else {
        lemma_encode_groups_snoc(ts.skip(1));
        assert(ts.skip(1).drop_last() =~= ts.drop_last().skip(1));
        assert(ts.skip(1).last() == ts.last());
        assert(ts.drop_last()[0] == ts[0]);
        assert(spec_encode_error_body(ts.drop_last()) == spec_encode_group(ts[0])
            + spec_encode_error_body(ts.drop_last().skip(1)));
        assert(spec_encode_group(ts[0]) + (spec_encode_error_body(ts.drop_last().skip(1))
            + spec_encode_group(ts.last())) =~= (spec_encode_group(ts[0])
            + spec_encode_error_body(ts.drop_last().skip(1))) + spec_encode_group(ts.last()));
    }
}

/// Build a synthetic markup error body carrying these groups, in order.
pub fn encode_error_body(ts: &Vec<(String, String, String)>) -> (r: String)
    ensures
        r@ == spec_encode_error_body(triples_view(ts@)),
{
    let ghost dv = triples_view(ts@);
    let mut out: String = String::new();
    proof {
        assert(dv.take(0) =~= Seq::<(Seq<char>, Seq<char>, Seq<char>)>::empty());
        assert(out@ =~= spec_encode_error_body(dv.take(0)));
    }
    let mut i: usize = 0;
    while i < ts.len()
        invariant
            i <= ts@.len(),
            dv == triples_view(ts@),
            dv.len() == ts@.len(),
            out@ == spec_encode_error_body(dv.take(i as int)),
        decreases ts@.len() - i,
    {
        out.append("<error><errorCode>");
        out.append(ts[i].0.as_str());
        out.append("</errorCode><errorMessage>");
        out.append(ts[i].1.as_str());
        out.append("</errorMessage><trackingId>");
        out.append(ts[i].2.as_str());
        out.append("</trackingId></error>");
        proof {
            reveal_strlit("<error><errorCode>");
            reveal_strlit("</errorCode><errorMessage>");
            reveal_strlit("</errorMessage><trackingId>");
            reveal_strlit("</trackingId></error>");
            reveal_strlit("error");
            reveal_strlit("errorCode");
            reveal_strlit("errorMessage");
            reveal_strlit("trackingId");
            assert(dv.take(i as int + 1).drop_last() =~= dv.take(i as int));
            assert(dv.take(i as int + 1).last() == dv[i as int]);
            lemma_encode_groups_snoc(dv.take(i as int + 1));
            assert(out@ =~= spec_encode_error_body(dv.take(i as int)) + spec_encode_group(
                dv[i as int],
            ));
        }
        i += 1;
    }
    proof {
        assert(dv.take(dv.len() as int) =~= dv);
    }
    out
}

/// Markup text free of the scanner's delimiter and of entity references.
pub open spec fn error_text_ok(t: (Seq<char>, Seq<char>, Seq<char>)) -> bool {
    (forall|j: int| 0 <= j < t.0.len() ==> t.0[j] != '<' && t.0[j] != '&') && (forall|j: int|
        0 <= j < t.1.len() ==> t.1[j] != '<' && t.1[j] != '&') && (forall|j: int|
        0 <= j < t.2.len() ==> t.2[j] != '<' && t.2[j] != '&')
}

/// The events one synthetic group scans to.
pub open spec fn group_events(t: (Seq<char>, Seq<char>, Seq<char>)) -> Seq<SpecEvent> {
    seq![SpecEvent::Open { name: "error"@, attrs: Seq::empty() }]
        + crate::markup::elem_events("errorCode"@, t.0)
        + crate::markup::elem_events("errorMessage"@, t.1)
        + crate::markup::elem_events("trackingId"@, t.2)
        + seq![SpecEvent::Close { name: "error"@ }]
}

pub open spec fn groups_events(ts: Seq<(Seq<char>, Seq<char>, Seq<char>)>) -> Seq<SpecEvent>
    decreases ts.len(),
{
    if ts.len() == 0 {
        Seq::empty()
    } else {
        group_events(ts[0]) + groups_events(ts.skip(1))
    }
}

#[verifier::rlimit(80)]
proof fn lemma_scan_groups(x: Seq<char>, ts: Seq<(Seq<char>, Seq<char>, Seq<char>)>)
    requires
        x == spec_encode_error_body(ts),
        forall|k: int| 0 <= k < ts.len() ==> error_text_ok(#[trigger] ts[k]),
    ensures
        spec_scan(x) == Some(groups_events(ts)),
    decreases ts.len(),
{
    reveal_strlit("error");
    reveal_strlit("errorCode");
    reveal_strlit("errorMessage");
    reveal_strlit("trackingId");
    if ts.len() == 0 {
        assert(x.len() == 0);
        assert(groups_events(ts) =~= Seq::<SpecEvent>::empty());
    } else {
        let t = ts[0];
        let rest = ts.skip(1);
        let z = spec_encode_error_body(rest);
        let x4 = seq!['<'] + (seq!['/'] + "error"@) + seq!['>'] + z;
        let x3 = crate::markup::spec_encode_elem("trackingId"@, t.2) + x4;
        let x2 = crate::markup::spec_encode_elem("errorMessage"@, t.1) + x3;
        let x1 = crate::markup::spec_encode_elem("errorCode"@, t.0) + x2;
        assert(spec_encode_error_body(ts) == spec_encode_group(t) + z);
        assert(x =~= seq!['<'] + "error"@ + seq!['>'] + x1);
        assert(crate::text::is_name("error"@));
        assert(crate::text::is_name("errorCode"@));
        assert(crate::text::is_name("errorMessage"@));
        assert(crate::text::is_name("trackingId"@));
        assert(forall|j: int| 0 <= j < "error"@.len() ==> "error"@[j] != '>');
        crate::markup::lemma_scan_leading_tag(x, "error"@, x1);
        crate::markup::lemma_tag_body_plain_open("error"@);
        crate::markup::lemma_scan_leading_elem(x1, "errorCode"@, t.0, x2);
        crate::markup::lemma_scan_leading_elem(x2, "errorMessage"@, t.1, x3);
        crate::markup::lemma_scan_leading_elem(x3, "trackingId"@, t.2, x4);
        let closebody = seq!['/'] + "error"@;
        assert(forall|j: int| 0 <= j < closebody.len() ==> closebody[j] != '>');
        crate::markup::lemma_scan_leading_tag(x4, closebody, z);
        assert(closebody[0] == '/');
        assert(closebody.skip(1) =~= "error"@);
        crate::markup::lemma_tag_body_close(closebody);
        lemma_scan_groups(z, rest);
        let open_ev = SpecEvent::Open {
            name: "error"@,
            attrs: Seq::<crate::markup::SpecAttr>::empty(),
        };
        let close_ev = SpecEvent::Close { name: "error"@ };
        let e1 = crate::markup::elem_events("errorCode"@, t.0);
        let e2 = crate::markup::elem_events("errorMessage"@, t.1);
        let e3 = crate::markup::elem_events("trackingId"@, t.2);
        assert(spec_scan(x4) == Some(seq![close_ev] + groups_events(rest)));
        assert(spec_scan(x3) == Some(e3 + (seq![close_ev] + groups_events(rest))));
        assert(spec_scan(x2) == Some(e2 + (e3 + (seq![close_ev] + groups_events(rest)))));
        assert(spec_scan(x1) == Some(e1 + (e2 + (e3 + (seq![close_ev] + groups_events(rest))))));
        assert(spec_scan(x) == Some(
            seq![open_ev] + (e1 + (e2 + (e3 + (seq![close_ev] + groups_events(rest))))),
        ));
        assert(seq![open_ev] + (e1 + (e2 + (e3 + (seq![close_ev] + groups_events(rest)))))
            =~= group_events(t) + groups_events(rest));
        assert(groups_events(ts) == group_events(t) + groups_events(rest));
    }
}

proof fn lemma_field_run(status: u16, st: ClsState, f: ErrField, v: Seq<char>)
    requires
        st.mode is Outside,
        st.errors.len() > 0,
        forall|j: int| 0 <= j < v.len() ==> v[j] != '&',
    ensures
        cls_run(status, st, crate::markup::elem_events(field_elem_name(f), v)) == Some(
            ClsState {
                errors: st.errors.update(
                    st.errors.len() - 1,
                    set_field(st.errors.last(), f, v),
                ),
                mode: ClsMode::Outside,
            },
        ),
{
    reveal_strlit("error");
    reveal_strlit("errorCode");
    reveal_strlit("errorMessage");
    reveal_strlit("trackingId");
    let name = field_elem_name(f);
    assert(name != "error"@) by {
        assert("error"@.len() == 5);
    }
    let open_ev = SpecEvent::Open { name, attrs: Seq::<crate::markup::SpecAttr>::empty() };
    let close_ev = SpecEvent::Close { name };
    let st_in = ClsState { mode: ClsMode::InField { field: f, acc: Seq::empty() }, ..st };
    let st2 = ClsState {
        errors: st.errors.update(st.errors.len() - 1, set_field(st.errors.last(), f, v)),
        mode: ClsMode::Outside,
    };
    assert(cls_step(status, st, open_ev) == Some(st_in)) by {
        assert("errorCode"@.len() == 9);
        assert("errorMessage"@.len() == 12);
        assert("trackingId"@.len() == 10);
    }
    if v.len() == 0 {
        assert(cls_step(status, st_in, close_ev) == Some(
            ClsState {
                errors: st.errors.update(
                    st.errors.len() - 1,
                    set_field(st.errors.last(), f, Seq::empty()),
                ),
                mode: ClsMode::Outside,
            },
        ));
        assert(Seq::<char>::empty() =~= v);
        assert(crate::markup::elem_events(name, v) =~= seq![open_ev] + seq![close_ev]);
        lemma_cls_run_append(status, st, seq![open_ev], seq![close_ev]);
        assert(seq![open_ev].skip(1) =~= Seq::<SpecEvent>::empty());
        assert(cls_run(status, st_in, seq![open_ev].skip(1)) == Some(st_in));
        assert(cls_run(status, st, seq![open_ev]) == Some(st_in));
        assert(seq![close_ev].skip(1) =~= Seq::<SpecEvent>::empty());
        assert(cls_run(status, st2, seq![close_ev].skip(1)) == Some(st2));
        assert(cls_run(status, st_in, seq![close_ev]) == Some(st2));
    } else {
        let text_ev = SpecEvent::Text { text: v };
        lemma_unescape_plain(v);
        let st_acc = ClsState {
            mode: ClsMode::InField { field: f, acc: Seq::empty() + spec_unescape(v) },
            ..st
        };
        assert(cls_step(status, st_in, text_ev) == Some(st_acc));
        assert(Seq::empty() + spec_unescape(v) =~= v);
        assert(cls_step(status, st_acc, close_ev) == Some(st2));
        assert(crate::markup::elem_events(name, v) =~= seq![open_ev] + (seq![text_ev]
            + seq![close_ev]));
        lemma_cls_run_append(status, st, seq![open_ev], seq![text_ev] + seq![close_ev]);
        assert(seq![open_ev].skip(1) =~= Seq::<SpecEvent>::empty());
        assert(cls_run(status, st_in, seq![open_ev].skip(1)) == Some(st_in));
        assert(cls_run(status, st, seq![open_ev]) == Some(st_in));
        lemma_cls_run_append(status, st_in, seq![text_ev], seq![close_ev]);
        assert(seq![text_ev].skip(1) =~= Seq::<SpecEvent>::empty());
        assert(cls_run(status, st_acc, seq![text_ev].skip(1)) == Some(st_acc));
        assert(cls_run(status, st_in, seq![text_ev]) == Some(st_acc));
        assert(seq![close_ev].skip(1) =~= Seq::<SpecEvent>::empty());
        assert(cls_run(status, st2, seq![close_ev].skip(1)) == Some(st2));
        assert(cls_run(status, st_acc, seq![close_ev]) == Some(st2));
    }
}

#[verifier::rlimit(80)]
proof fn lemma_group_run(status: u16, st: ClsState, t: (Seq<char>, Seq<char>, Seq<char>))
    requires
        st.mode is Outside,
        error_text_ok(t),
    ensures
        cls_run(status, st, group_events(t)) == Some(
            ClsState {
                errors: st.errors.push(
                    SpecAlmaError {
                        status_code: status,
                        error_code: t.0,
                        error_message: t.1,
                        tracking_id: t.2,
                    },
                ),
                mode: ClsMode::Outside,
            },
        ),
{
    reveal_strlit("error");
    let open_ev = SpecEvent::Open {
        name: "error"@,
        attrs: Seq::<crate::markup::SpecAttr>::empty(),
    };
    let close_ev = SpecEvent::Close { name: "error"@ };
    let e1 = crate::markup::elem_events("errorCode"@, t.0);
    let e2 = crate::markup::elem_events("errorMessage"@, t.1);
    let e3 = crate::markup::elem_events("trackingId"@, t.2);
    let st0 = ClsState { errors: st.errors.push(blank_error(status)), mode: ClsMode::Outside };
    assert(cls_step(status, st, open_ev) == Some(st0));
    lemma_cls_run_append(status, st, seq![open_ev], e1 + (e2 + (e3 + seq![close_ev])));
    assert(seq![open_ev].skip(1) =~= Seq::<SpecEvent>::empty());
    assert(cls_run(status, st0, seq![open_ev].skip(1)) == Some(st0));
    assert(cls_run(status, st, seq![open_ev]) == Some(st0));
    let b0 = blank_error(status);
    let b1 = set_field(b0, ErrField::Code, t.0);
    let b2 = set_field(b1, ErrField::Message, t.1);
    let b3 = set_field(b2, ErrField::Tracking, t.2);
    lemma_field_run(status, st0, ErrField::Code, t.0);
    let st1 = ClsState {
        errors: st0.errors.update(st0.errors.len() - 1, b1),
        mode: ClsMode::Outside,
    };
    assert(st0.errors.last() == b0);
    lemma_cls_run_append(status, st0, e1, e2 + (e3 + seq![close_ev]));
    lemma_field_run(status, st1, ErrField::Message, t.1);
    let st2 = ClsState {
        errors: st1.errors.update(st1.errors.len() - 1, b2),
        mode: ClsMode::Outside,
    };
    assert(st1.errors.last() == b1);
    lemma_cls_run_append(status, st1, e2, e3 + seq![close_ev]);
    lemma_field_run(status, st2, ErrField::Tracking, t.2);
    let st3 = ClsState {
        errors: st2.errors.update(st2.errors.len() - 1, b3),
        mode: ClsMode::Outside,
    };
    assert(st2.errors.last() == b2);
    lemma_cls_run_append(status, st2, e3, seq![close_ev]);
    assert(cls_step(status, st3, close_ev) == Some(st3));
    assert(seq![close_ev].skip(1) =~= Seq::<SpecEvent>::empty());
    assert(cls_run(status, st3, seq![close_ev].skip(1)) == Some(st3));
    assert(cls_run(status, st3, seq![close_ev]) == Some(st3));
    assert(group_events(t) =~= seq![open_ev] + (e1 + (e2 + (e3 + seq![close_ev]))));
    assert(st3.errors =~= st.errors.push(
        SpecAlmaError {
            status_code: status,
            error_code: t.0,
            error_message: t.1,
            tracking_id: t.2,
        },
    ));
}

proof fn lemma_groups_run(status: u16, st: ClsState, ts: Seq<(Seq<char>, Seq<char>, Seq<char>)>)
    requires
        st.mode is Outside,
        forall|k: int| 0 <= k < ts.len() ==> error_text_ok(#[trigger] ts[k]),
    ensures
        cls_run(status, st, groups_events(ts)) == Some(
            ClsState { errors: st.errors + errors_of(status, ts), mode: ClsMode::Outside },
        ),
    decreases ts.len(),
{
    if ts.len() == 0 {
        assert(groups_events(ts) =~= Seq::<SpecEvent>::empty());
        assert(st.errors + errors_of(status, ts) =~= st.errors);
    } else {
        let t = ts[0];
        let rest = ts.skip(1);
        lemma_group_run(status, st, t);
        let st2 = ClsState {
            errors: st.errors.push(
                SpecAlmaError {
                    status_code: status,
                    error_code: t.0,
                    error_message: t.1,
                    tracking_id: t.2,
                },
            ),
            mode: ClsMode::Outside,
        };
        lemma_groups_run(status, st2, rest);
        assert(groups_events(ts) == group_events(t) + groups_events(rest));
        lemma_cls_run_append(status, st, group_events(t), groups_events(rest));
        assert(st2.errors + errors_of(status, rest) =~= st.errors + errors_of(status, ts));
    }
}

/// Classifier duality: a markup error body with these groups and the
/// structurally equivalent structured-document error body classify to the
/// same structured errors, each sharing the response's status code.
#[verifier::rlimit(80)]
pub proof fn lemma_classifier_duality(
    status: u16,
    ts: Seq<(Seq<char>, Seq<char>, Seq<char>)>,
    keys: Seq<Seq<char>>,
)
    requires
        keys.len() == ts.len(),
        forall|k: int| 0 <= k < ts.len() ==> error_text_ok(#[trigger] ts[k]),
    ensures
        spec_classify_xml(status, spec_encode_error_body(ts)) == Some(errors_of(status, ts)),
        spec_classify_json(status, spec_error_doc(keys, ts)) == Some(errors_of(status, ts)),
{
    reveal_strlit("errorList");
    reveal_strlit("errorCode");
    reveal_strlit("errorMessage");
    reveal_strlit("trackingId");
    // Markup side.
    lemma_scan_groups(spec_encode_error_body(ts), ts);
    lemma_groups_run(status, init_cls_state(), ts);
    assert(Seq::<SpecAlmaError>::empty() + errors_of(status, ts) =~= errors_of(status, ts));
    // Structured-document side.
    let entries = Seq::new(ts.len(), |i: int| (keys[i], spec_error_entry(ts[i])));
    let doc = spec_error_doc(keys, ts);
    let top = seq![("errorList"@, SpecValue::Obj(entries))];
    assert(top[0].0 == "errorList"@);
    assert(spec_lookup(top, "errorList"@) == Some(SpecValue::Obj(entries)));
    let mapped = entries.map_values(
        |kv: (Seq<char>, SpecValue)| json_error_of(status, kv.1),
    );
    assert(mapped =~= errors_of(status, ts)) by {
        assert forall|i: int| 0 <= i < ts.len() implies mapped[i] == errors_of(status, ts)[i] by {
            let entry = spec_error_entry(ts[i]);
            let fields = seq![
                ("errorCode"@, SpecValue::Str(ts[i].0)),
                ("errorMessage"@, SpecValue::Str(ts[i].1)),
                ("trackingId"@, SpecValue::Str(ts[i].2)),
            ];
            assert("errorCode"@.len() == 9);
            assert("errorMessage"@.len() == 12);
            assert("trackingId"@.len() == 10);
            assert(fields[0].0 == "errorCode"@);
            assert(spec_lookup(fields, "errorCode"@) == Some(SpecValue::Str(ts[i].0)));
            assert(fields.skip(1) =~= seq![
                ("errorMessage"@, SpecValue::Str(ts[i].1)),
                ("trackingId"@, SpecValue::Str(ts[i].2)),
            ]);
            assert(fields.skip(1).skip(1) =~= seq![("trackingId"@, SpecValue::Str(ts[i].2))]);
            assert(spec_lookup(fields.skip(1), "errorMessage"@) == Some(
                SpecValue::Str(ts[i].1),
            ));
            assert(spec_lookup(fields, "errorMessage"@) == Some(SpecValue::Str(ts[i].1)));
            assert(spec_lookup(fields.skip(1).skip(1), "trackingId"@) == Some(
                SpecValue::Str(ts[i].2),
            ));
            assert(spec_lookup(fields.skip(1), "trackingId"@) == Some(SpecValue::Str(ts[i].2)));
            assert(spec_lookup(fields, "trackingId"@) == Some(SpecValue::Str(ts[i].2)));
        }
    }
}

} // verus!
