//! Decoding of paginated listing bodies.
//!
//! A listing body carries an outer `users` element whose
//! `total_record_count` attribute advertises the total number of records,
//! and one `primary_id` element per record, whose text is the record's
//! identifier.  The decoder folds the scanned events, keeping identifiers in
//! the order the server returned them, resolving the predefined entity
//! references in their text, and tolerates any other markup or text in
//! between.

use vstd::prelude::*;

use crate::errors::ClientError;
use crate::markup::{
    lemma_scan_leading_tag, lemma_scan_leading_text, lemma_tag_body_close,
    lemma_tag_body_one_attr, lemma_tag_body_plain_open, scan_markup, spec_scan, Event, SpecAttr,
    SpecEvent,
};
use crate::text::{
    chars_to_string, dec_digits, dec_value, is_dec_seq, lemma_dec_digits_value,
    lemma_unescape_plain, parse_dec_range, push_dec_digits, spec_unescape, str_chars, str_eq,
    unescape_text,
};

verus! {

/// Where the fold stands: between elements, or inside a `primary_id`
/// element accumulating the identifier's text.
pub enum ListMode {
    Outside,
    InId { acc: Seq<char> },
}

/// The fold state: identifiers seen so far, the advertised total from the
/// most recent `users` element, and the mode.
pub struct ListState {
    pub ids: Seq<Seq<char>>,
    pub total: Option<int>,
    pub mode: ListMode,
}

pub open spec fn init_list_state() -> ListState {
    ListState { ids: Seq::empty(), total: None, mode: ListMode::Outside }
}

/// The advertised total: the first `total_record_count` attribute whose
/// value is a digit run that fits the platform's count type.
pub open spec fn attr_total(attrs: Seq<SpecAttr>) -> Option<int>
    decreases attrs.len(),
{
    if attrs.len() == 0 {
        None
    } else if attrs[0].name == "total_record_count"@ && is_dec_seq(attrs[0].value) && dec_value(
        attrs[0].value,
    ) <= usize::MAX as int {
        Some(dec_value(attrs[0].value))
    } else {
        attr_total(attrs.skip(1))
    }
}

/// One step of the listing fold.  `None` is a decode failure: markup inside
/// an identifier element, or a mismatched closing tag there.
pub open spec fn list_step(st: ListState, ev: SpecEvent) -> Option<ListState> {
    match st.mode {
        ListMode::Outside => match ev {
            SpecEvent::Open { name, attrs } => {
                if name == "users"@ {
                    Some(ListState { total: attr_total(attrs), ..st })
                } else if name == "primary_id"@ {
                    Some(ListState { mode: ListMode::InId { acc: Seq::empty() }, ..st })
                } else {
                    Some(st)
                }
            },
            _ => Some(st),
        },
        ListMode::InId { acc } => match ev {
            SpecEvent::Text { text } => Some(
                ListState { mode: ListMode::InId { acc: acc + spec_unescape(text) }, ..st },
            ),
            SpecEvent::Close { name } => {
                if name == "primary_id"@ {
                    Some(ListState { ids: st.ids.push(acc), mode: ListMode::Outside, ..st })
                } else {
                    None
                }
            },
            _ => None,
        },
    }
}

pub open spec fn list_run(st: ListState, evs: Seq<SpecEvent>) -> Option<ListState>
    decreases evs.len(),
{
    if evs.len() == 0 {
        Some(st)
    } else {
        match list_step(st, evs[0]) {
            None => None,
            Some(st2) => list_run(st2, evs.skip(1)),
        }
    }
}

/// Folding distributes over concatenation of event sequences.
pub proof fn lemma_list_run_append(st: ListState, a: Seq<SpecEvent>, b: Seq<SpecEvent>)
    ensures
        list_run(st, a + b) == (match list_run(st, a) {
            None => None::<ListState>,
            Some(m) => list_run(m, b),
        }),
    decreases a.len(),
{
    if a.len() == 0 {
        assert(a + b =~= b);
    } else {
        assert((a + b)[0] == a[0]);
        match list_step(st, a[0]) {
            None => {},
            Some(st2) => {
                assert((a + b).skip(1) =~= a.skip(1) + b);
                lemma_list_run_append(st2, a.skip(1), b);
            },
        }
    }
}

/// What a listing body decodes to: the identifiers in order and the
/// advertised total, if any.  `None` is a decode failure.
pub open spec fn spec_decode_listing(s: Seq<char>) -> Option<(Seq<Seq<char>>, Option<int>)> {
    match spec_scan(s) {
        None => None,
        Some(evs) => match list_run(init_list_state(), evs) {
            None => None,
            Some(st) => match st.mode {
                ListMode::Outside => Some((st.ids, st.total)),
                ListMode::InId { .. } => None,
            },
        },
    }
}

/// The `Option<usize>` a decoder returns, seen as the spec's total.
pub open spec fn spec_total(t: Option<usize>) -> Option<int> {
    match t {
        Some(v) => Some(v as int),
        None => None,
    }
}

fn attr_total_exec(attrs: &Vec<crate::markup::Attr>) -> (r: Option<usize>)
    ensures
        spec_total(r) == attr_total(attrs.deep_view()),
{
    let ghost dv = attrs.deep_view();
    proof {
        assert(dv.skip(0) =~= dv);
    }
    let mut k: usize = 0;
    while k < attrs.len()
        invariant
            k <= attrs@.len(),
            dv == attrs.deep_view(),
            dv.len() == attrs@.len(),
            attr_total(dv.skip(k as int)) == attr_total(dv),
        decreases attrs@.len() - k,
    {
        assert(dv.skip(k as int)[0] == dv[k as int]);
        let a = &attrs[k];
        assert(a.deep_view() == dv[k as int]);
        if str_eq(a.name.as_str(), "total_record_count") {
            let vchars = str_chars(a.value.as_str());
            assert(vchars@.subrange(0, vchars@.len() as int) =~= a.value@);
            match parse_dec_range(&vchars, 0, vchars.len()) {
                Some(v) => {
                    if v <= usize::MAX as u64 {
                        assert(attr_total(dv.skip(k as int)) == Some(v as int));
                        return Some(v as usize);
                    }
                },
                None => {},
            }
        }
        proof {
            assert(attr_total(dv.skip(k as int)) == attr_total(dv.skip(k as int).skip(1)));
            assert(dv.skip(k as int).skip(1) =~= dv.skip(k as int + 1));
        }
        k += 1;
    }
    assert(dv.skip(dv.len() as int) =~= Seq::<SpecAttr>::empty());
    None
}

/// Decode a listing body into its identifiers and advertised total.
pub fn decode_listing(body: &str) -> (r: Result<(Vec<String>, Option<usize>), ClientError>)
    ensures
        match r {
            Ok((ids, total)) => spec_decode_listing(body@) == Some(
                (ids.deep_view(), spec_total(total)),
            ),
            Err(e) => spec_decode_listing(body@) is None && e is Decode,
        },
{
    let chars = str_chars(body);
    let evs = match scan_markup(&chars) {
        None => {
            return Err(ClientError::decode("malformed markup in listing body"));
        },
        Some(evs) => evs,
    };
    let ghost evs_dv = evs.deep_view();
    let mut ids: Vec<String> = Vec::new();
    let mut total: Option<usize> = None;
    let mut acc: Option<String> = None;
    proof {
        assert(evs_dv.take(0) =~= Seq::<SpecEvent>::empty());
        assert(ids.deep_view() =~= Seq::<Seq<char>>::empty());
    }
    let mut k: usize = 0;
    while k < evs.len()
        invariant
            k <= evs@.len(),
            evs_dv == evs.deep_view(),
            evs_dv.len() == evs@.len(),
            spec_scan(body@) == Some(evs_dv),
            list_run(init_list_state(), evs_dv.take(k as int)) == Some(
                ListState {
                    ids: ids.deep_view(),
                    total: spec_total(total),
                    mode: match acc {
                        None => ListMode::Outside,
                        Some(a) => ListMode::InId { acc: a@ },
                    },
                },
            ),
        decreases evs@.len() - k,
    {
        let ghost st = ListState {
            ids: ids.deep_view(),
            total: spec_total(total),
            mode: match &acc {
                None => ListMode::Outside,
                Some(a) => ListMode::InId { acc: a@ },
            },
        };
        let ghost ev = evs_dv[k as int];
        proof {
            assert(evs_dv.take(k as int + 1) =~= evs_dv.take(k as int) + seq![ev]);
            lemma_list_run_append(init_list_state(), evs_dv.take(k as int), seq![ev]);
            assert(seq![ev][0] == ev);
            match list_step(st, ev) {
                None => {
                    assert(list_run(st, seq![ev]) is None);
                },
                Some(st2) => {
                    assert(seq![ev].skip(1) =~= Seq::<SpecEvent>::empty());
                    assert(list_run(st2, seq![ev].skip(1)) == Some(st2));
                    assert(list_run(st, seq![ev]) == Some(st2));
                },
            }
            assert(list_run(init_list_state(), evs_dv.take(k as int + 1)) == list_step(st, ev));
            assert(evs@[k as int].deep_view() == ev);
        }
        let in_id = acc.is_some();
        match &evs[k] {
            Event::Open { name, attrs } => {
                if in_id {
                    proof {
                        assert(list_step(st, evs_dv[k as int]) is None);
                        assert(evs_dv =~= evs_dv.take(k as int + 1) + evs_dv.skip(k as int + 1));
                        lemma_list_run_append(
                            init_list_state(),
                            evs_dv.take(k as int + 1),
                            evs_dv.skip(k as int + 1),
                        );
                    }
                    return Err(ClientError::decode("markup inside an identifier element"));
                }
                if str_eq(name.as_str(), "users") {
                    total = attr_total_exec(attrs);
                } else if str_eq(name.as_str(), "primary_id") {
                    acc = Some(String::new());
                }
            },
            Event::Empty { .. } => {
                if in_id {
                    proof {
                        assert(list_step(st, evs_dv[k as int]) is None);
                        assert(evs_dv =~= evs_dv.take(k as int + 1) + evs_dv.skip(k as int + 1));
                        lemma_list_run_append(
                            init_list_state(),
                            evs_dv.take(k as int + 1),
                            evs_dv.skip(k as int + 1),
                        );
                    }
                    return Err(ClientError::decode("markup inside an identifier element"));
                }
            },
            Event::Close { name } => {
                if in_id {
                    if str_eq(name.as_str(), "primary_id") {
                        let ghost old_ids = ids.deep_view();
                        let finished = match acc {
                            Some(a) => a,
                            None => String::new(),  // unreachable: in_id holds
                        };
                        ids.push(finished);
                        acc = None;
                        proof {
                            assert(ids.deep_view() =~= old_ids.push(finished@));
                        }
                    } else {
                        proof {
                            assert(list_step(st, evs_dv[k as int]) is None);
                            assert(evs_dv =~= evs_dv.take(k as int + 1) + evs_dv.skip(
                                k as int + 1,
                            ));
                            lemma_list_run_append(
                                init_list_state(),
                                evs_dv.take(k as int + 1),
                                evs_dv.skip(k as int + 1),
                            );
                        }
                        return Err(
                            ClientError::decode("mismatched closing tag inside an identifier"),
                        );
                    }
                }
            },
            Event::Text { text } => {
                if in_id {
                    let resolved = unescape_text(text.as_str());
                    let joined = match acc {
                        Some(a) => a.concat(resolved.as_str()),
                        None => String::new(),  // unreachable: in_id holds
                    };
                    acc = Some(joined);
                }
            },
        }
        k += 1;
    }
    proof {
        assert(evs_dv.take(evs_dv.len() as int) =~= evs_dv);
    }
    if acc.is_some() {
        return Err(ClientError::decode("unterminated identifier element"));
    }
    Ok((ids, total))
}

/// Decode a listing body, requiring the advertised total; its absence after
/// a full parse is a decode failure.
pub fn decode_listing_with_total(body: &str) -> (r: Result<(Vec<String>, usize), ClientError>)
    ensures
        match r {
            Ok((ids, t)) => spec_decode_listing(body@) == Some(
                (ids.deep_view(), Some(t as int)),
            ),
            Err(e) => e is Decode && (spec_decode_listing(body@) is None || spec_decode_listing(
                body@,
            )->Some_0.1 is None),
        },
{
    match decode_listing(body) {
        Ok((ids, Some(t))) => Ok((ids, t)),
        Ok((_, None)) => Err(ClientError::decode("missing total record count")),
        Err(e) => Err(e),
    }
}

/// Decode a listing body into its identifiers alone.
pub fn decode_listing_ids(body: &str) -> (r: Result<Vec<String>, ClientError>)
    ensures
        match r {
            Ok(ids) => (match spec_decode_listing(body@) {
                Some(d) => d.0 == ids.deep_view(),
                None => false,
            }),
            Err(e) => spec_decode_listing(body@) is None && e is Decode,
        },
{
    match decode_listing(body) {
        Ok((ids, _)) => Ok(ids),
        Err(e) => Err(e),
    }
}

/// A synthetic listing body: one identifier element per entry.
pub open spec fn spec_encode_item(id: Seq<char>) -> Seq<char> {
    "<primary_id>"@ + id + "</primary_id>"@
}

pub open spec fn spec_encode_items(ids: Seq<Seq<char>>) -> Seq<char>
    decreases ids.len(),
{
    if ids.len() == 0 {
        Seq::empty()
    } else {
        spec_encode_item(ids[0]) + spec_encode_items(ids.skip(1))
    }
}

/// A synthetic listing body advertising `total` and carrying `ids` in order.
pub open spec fn spec_encode_listing(ids: Seq<Seq<char>>, total: int) -> Seq<char> {
    "<users total_record_count=\""@ + dec_digits(total as nat) + "\">"@ + spec_encode_items(ids)
        + "</users>"@
}

pub proof fn lemma_encode_items_snoc(ids: Seq<Seq<char>>)
    requires
        ids.len() > 0,
    ensures
        spec_encode_items(ids) == spec_encode_items(ids.drop_last()) + spec_encode_item(
            ids.last(),
        ),
    decreases ids.len(),
{
    if ids.len() == 1 {
        assert(ids.drop_last() =~= Seq::<Seq<char>>::empty());
        assert(ids.skip(1) =~= Seq::<Seq<char>>::empty());
        assert(spec_encode_items(ids) == spec_encode_item(ids[0]) + spec_encode_items(
            ids.skip(1),
        ));
        assert(spec_encode_item(ids[0]) + Seq::<char>::empty() =~= spec_encode_item(ids[0]));
        assert(Seq::<char>::empty() + spec_encode_item(ids.last()) =~= spec_encode_item(ids[0]));
    } else {
        lemma_encode_items_snoc(ids.skip(1));
        assert(ids.skip(1).drop_last() =~= ids.drop_last().skip(1));
        assert(ids.skip(1).last() == ids.last());
        assert(ids.drop_last()[0] == ids[0]);
        assert(spec_encode_items(ids.drop_last()) == spec_encode_item(ids[0]) + spec_encode_items(
            ids.drop_last().skip(1),
        ));
        assert(spec_encode_item(ids[0]) + (spec_encode_items(ids.drop_last().skip(1))
            + spec_encode_item(ids.last())) =~= (spec_encode_item(ids[0]) + spec_encode_items(
            ids.drop_last().skip(1),
        )) + spec_encode_item(ids.last()));
    }
}

/// Build a synthetic listing body carrying these identifiers and advertising
/// this total.
pub fn encode_listing(ids: &Vec<String>, total: usize) -> (r: String)
    ensures
        r@ == spec_encode_listing(ids.deep_view(), total as int),
{
    let ghost dv = ids.deep_view();
    let ghost header = "<users total_record_count=\""@ + dec_digits(total as nat) + "\">"@;
    let mut out: String = String::new();
    out.append("<users total_record_count=\"");
    let mut digits: Vec<char> = Vec::new();
    push_dec_digits(&mut digits, total as u64);
    let dstr = chars_to_string(&digits);
    out.append(dstr.as_str());
    out.append("\">");
    proof {
        assert((total as u64) as nat == total as nat);
        assert(out@ =~= header + spec_encode_items(dv.take(0)));
    }
    let mut i: usize = 0;
    while i < ids.len()
        invariant
            i <= ids@.len(),
            dv == ids.deep_view(),
            dv.len() == ids@.len(),
            header == "<users total_record_count=\""@ + dec_digits(total as nat) + "\">"@,
            out@ == header + spec_encode_items(dv.take(i as int)),
        decreases ids@.len() - i,
    {
        out.append("<primary_id>");
        out.append(ids[i].as_str());
        out.append("</primary_id>");
        proof {
            assert(dv.take(i as int + 1).drop_last() =~= dv.take(i as int));
            assert(dv.take(i as int + 1).last() == dv[i as int]);
            lemma_encode_items_snoc(dv.take(i as int + 1));
            assert(out@ =~= header + spec_encode_items(dv.take(i as int + 1)));
        }
        i += 1;
    }
    out.append("</users>");
    proof {
        assert(dv.take(dv.len() as int) =~= dv);
        assert(out@ =~= spec_encode_listing(dv, total as int));
    }
    out
}

/// Identifier text that can stand verbatim between tags: no tag opener and
/// no entity reference.
pub open spec fn id_text_ok(id: Seq<char>) -> bool {
    forall|j: int| 0 <= j < id.len() ==> id[j] != '<' && id[j] != '&'
}

/// The events a synthetic identifier element scans to.
pub open spec fn item_events(id: Seq<char>) -> Seq<SpecEvent> {
    if id.len() == 0 {
        seq![
            SpecEvent::Open { name: "primary_id"@, attrs: Seq::empty() },
            SpecEvent::Close { name: "primary_id"@ },
        ]
    } else {
        seq![
            SpecEvent::Open { name: "primary_id"@, attrs: Seq::empty() },
            SpecEvent::Text { text: id },
            SpecEvent::Close { name: "primary_id"@ },
        ]
    }
}

pub open spec fn items_events(ids: Seq<Seq<char>>) -> Seq<SpecEvent>
    decreases ids.len(),
{
    if ids.len() == 0 {
        Seq::empty()
    } else {
        item_events(ids[0]) + items_events(ids.skip(1))
    }
}

#[verifier::rlimit(80)]
proof fn lemma_scan_items(x: Seq<char>, ids: Seq<Seq<char>>)
    requires
        x == spec_encode_items(ids) + "</users>"@,
        forall|k: int| 0 <= k < ids.len() ==> id_text_ok(#[trigger] ids[k]),
    ensures
        spec_scan(x) == Some(items_events(ids).push(SpecEvent::Close { name: "users"@ })),
    decreases ids.len(),
{
    reveal_strlit("</users>");
    reveal_strlit("/users");
    reveal_strlit("users");
    reveal_strlit("<primary_id>");
    reveal_strlit("primary_id");
    reveal_strlit("</primary_id>");
    reveal_strlit("/primary_id");
    let close_users = SpecEvent::Close { name: "users"@ };
    if ids.len() == 0 {
        assert(x =~= seq!['<'] + "/users"@ + seq!['>'] + Seq::<char>::empty());
        assert(forall|j: int| 0 <= j < "/users"@.len() ==> "/users"@[j] != '>');
        lemma_scan_leading_tag(x, "/users"@, Seq::empty());
        assert("/users"@.skip(1) =~= "users"@);
        assert(crate::text::is_name("users"@));
        lemma_tag_body_close("/users"@);
        assert(spec_scan(Seq::<char>::empty()) == Some(Seq::<SpecEvent>::empty()));
        assert(seq![close_users] + Seq::<SpecEvent>::empty() =~= items_events(ids).push(
            close_users,
        ));
    } else {
        let id0 = ids[0];
        let rest_ids = ids.skip(1);
        let z = spec_encode_items(rest_ids) + "</users>"@;
        let x2 = seq!['<'] + "/primary_id"@ + seq!['>'] + z;
        let x1 = id0 + x2;
        assert(spec_encode_items(ids) == spec_encode_item(id0) + spec_encode_items(rest_ids));
        assert(x =~= seq!['<'] + "primary_id"@ + seq!['>'] + x1);
        assert(forall|j: int| 0 <= j < "primary_id"@.len() ==> "primary_id"@[j] != '>');
        lemma_scan_leading_tag(x, "primary_id"@, x1);
        assert(crate::text::is_name("primary_id"@));
        lemma_tag_body_plain_open("primary_id"@);
        assert(forall|j: int| 0 <= j < "/primary_id"@.len() ==> "/primary_id"@[j] != '>');
        lemma_scan_leading_tag(x2, "/primary_id"@, z);
        assert("/primary_id"@.skip(1) =~= "primary_id"@);
        lemma_tag_body_close("/primary_id"@);
        lemma_scan_items(z, rest_ids);
        let tail_events = items_events(rest_ids).push(close_users);
        assert(spec_scan(x2) == Some(
            seq![SpecEvent::Close { name: "primary_id"@ }] + tail_events,
        ));
        let open_ev = SpecEvent::Open { name: "primary_id"@, attrs: Seq::<SpecAttr>::empty() };
        let close_ev = SpecEvent::Close { name: "primary_id"@ };
        if id0.len() == 0 {
            assert(x1 =~= x2);
            assert(spec_scan(x) == Some(
                seq![open_ev] + (seq![close_ev] + tail_events),
            ));
            assert(seq![open_ev] + (seq![close_ev] + tail_events) =~= (item_events(id0)
                + items_events(rest_ids)).push(close_users));
        } else {
            assert(x2.len() > 0 && x2[0] == '<');
            lemma_scan_leading_text(x1, id0, x2);
            assert(spec_scan(x1) == Some(
                seq![SpecEvent::Text { text: id0 }] + (seq![close_ev] + tail_events),
            ));
            assert(seq![open_ev] + (seq![SpecEvent::Text { text: id0 }] + (seq![close_ev]
                + tail_events)) =~= (item_events(id0) + items_events(rest_ids)).push(
                close_users,
            ));
        }
        assert(items_events(ids) == item_events(id0) + items_events(rest_ids));
    }
}

proof fn lemma_items_run(st: ListState, ids: Seq<Seq<char>>)
    requires
        st.mode is Outside,
        forall|k: int| 0 <= k < ids.len() ==> id_text_ok(#[trigger] ids[k]),
    ensures
        list_run(st, items_events(ids)) == Some(
            ListState { ids: st.ids + ids, total: st.total, mode: ListMode::Outside },
        ),
    decreases ids.len(),
{
    reveal_strlit("primary_id");
    reveal_strlit("users");
    if ids.len() == 0 {
        assert(items_events(ids) =~= Seq::<SpecEvent>::empty());
        assert(st.ids + ids =~= st.ids);
    } else {
        let id0 = ids[0];
        let rest_ids = ids.skip(1);
        assert("primary_id"@.len() != "users"@.len());
        let open_ev = SpecEvent::Open { name: "primary_id"@, attrs: Seq::<SpecAttr>::empty() };
        let close_ev = SpecEvent::Close { name: "primary_id"@ };
        let st_in = ListState { mode: ListMode::InId { acc: Seq::empty() }, ..st };
        let st2 = ListState { ids: st.ids.push(id0), total: st.total, mode: ListMode::Outside };
        assert(list_step(st, open_ev) == Some(st_in));
        if id0.len() == 0 {
            assert(Seq::<char>::empty() =~= id0);
            assert(list_step(st_in, close_ev) == Some(st2));
            assert(item_events(id0) =~= seq![open_ev] + seq![close_ev]);
            lemma_list_run_append(st, seq![open_ev], seq![close_ev]);
            assert(seq![open_ev].skip(1) =~= Seq::<SpecEvent>::empty());
            assert(list_run(st_in, seq![open_ev].skip(1)) == Some(st_in));
            assert(list_run(st, seq![open_ev]) == Some(st_in));
            assert(seq![close_ev].skip(1) =~= Seq::<SpecEvent>::empty());
            assert(list_run(st2, seq![close_ev].skip(1)) == Some(st2));
            assert(list_run(st_in, seq![close_ev]) == Some(st2));
            assert(list_run(st, item_events(id0)) == Some(st2));
        } else {
            let text_ev = SpecEvent::Text { text: id0 };
            lemma_unescape_plain(id0);
            let st_acc = ListState {
                mode: ListMode::InId { acc: Seq::empty() + spec_unescape(id0) },
                ..st
            };
            assert(list_step(st_in, text_ev) == Some(st_acc));
            assert(Seq::empty() + spec_unescape(id0) =~= id0);
            assert(list_step(st_acc, close_ev) == Some(
                ListState {
                    ids: st.ids.push(Seq::empty() + spec_unescape(id0)),
                    total: st.total,
                    mode: ListMode::Outside,
                },
            ));
            assert(st.ids.push(Seq::empty() + spec_unescape(id0)) =~= st.ids.push(id0));
            assert(item_events(id0) =~= seq![open_ev] + (seq![text_ev] + seq![close_ev]));
            lemma_list_run_append(st, seq![open_ev], seq![text_ev] + seq![close_ev]);
            assert(seq![open_ev].skip(1) =~= Seq::<SpecEvent>::empty());
            assert(list_run(st_in, seq![open_ev].skip(1)) == Some(st_in));
            assert(list_run(st, seq![open_ev]) == Some(st_in));
            lemma_list_run_append(st_in, seq![text_ev], seq![close_ev]);
            assert(seq![text_ev].skip(1) =~= Seq::<SpecEvent>::empty());
            assert(list_run(st_acc, seq![text_ev].skip(1)) == Some(st_acc));
            assert(list_run(st_in, seq![text_ev]) == Some(st_acc));
            assert(seq![close_ev].skip(1) =~= Seq::<SpecEvent>::empty());
            assert(list_run(st2, seq![close_ev].skip(1)) == Some(st2));
            assert(list_run(st_acc, seq![close_ev]) == Some(st2));
            assert(list_run(st, item_events(id0)) == Some(st2));
        }
        lemma_items_run(st2, rest_ids);
        assert(items_events(ids) == item_events(id0) + items_events(rest_ids));
        lemma_list_run_append(st, item_events(id0), items_events(rest_ids));
        assert(st2.ids + rest_ids =~= st.ids + ids);
    }
}

/// Decoder round trip: a synthetic listing body with these identifiers and
/// this advertised total decodes to exactly these identifiers, in document
/// order, and exactly this total.
#[verifier::rlimit(80)]
pub proof fn lemma_listing_round_trip(ids: Seq<Seq<char>>, total: int)
    requires
        0 <= total <= usize::MAX as int,
        forall|k: int| 0 <= k < ids.len() ==> id_text_ok(#[trigger] ids[k]),
    ensures
        spec_decode_listing(spec_encode_listing(ids, total)) == Some((ids, Some(total))),
{
    reveal_strlit("<users total_record_count=\"");
    reveal_strlit("\">");
    reveal_strlit("users");
    reveal_strlit("total_record_count");
    let d = dec_digits(total as nat);
    lemma_dec_digits_value(total as nat);
    let body1 = "users"@ + seq![' '] + "total_record_count"@ + seq!['=', '"'] + d + seq!['"'];
    let x = spec_encode_listing(ids, total);
    let z = spec_encode_items(ids) + "</users>"@;
    assert(forall|j: int| 0 <= j < d.len() ==> crate::text::is_digit(#[trigger] d[j]));
    assert(forall|j: int| 0 <= j < d.len() ==> #[trigger] d[j] != '>' && d[j] != '"' && d[j]
        != '=') by {
        assert('9' as int == 57);
        assert('0' as int == 48);
        assert('>' as int == 62);
        assert('"' as int == 34);
        assert('=' as int == 61);
    }
    assert(x =~= seq!['<'] + body1 + seq!['>'] + z);
    assert(forall|j: int| 0 <= j < body1.len() ==> body1[j] != '>');
    lemma_scan_leading_tag(x, body1, z);
    assert(crate::text::is_name("users"@));
    assert(crate::text::is_name("total_record_count"@));
    lemma_tag_body_one_attr("users"@, "total_record_count"@, d);
    lemma_scan_items(z, ids);
    let attr = SpecAttr { name: "total_record_count"@, value: d };
    let open_ev = SpecEvent::Open { name: "users"@, attrs: seq![attr] };
    let close_users = SpecEvent::Close { name: "users"@ };
    let evs = seq![open_ev] + items_events(ids).push(close_users);
    assert(spec_scan(x) == Some(evs));
    // Folding the events.
    let st0 = init_list_state();
    assert(seq![attr][0] == attr);
    assert(seq![attr].skip(1) =~= Seq::<SpecAttr>::empty());
    assert(attr_total(seq![attr]) == Some(total));
    let st1 = ListState { ids: Seq::empty(), total: Some(total), mode: ListMode::Outside };
    assert(list_step(st0, open_ev) == Some(st1));
    lemma_list_run_append(st0, seq![open_ev], items_events(ids).push(close_users));
    assert(seq![open_ev].skip(1) =~= Seq::<SpecEvent>::empty());
    assert(list_run(st1, seq![open_ev].skip(1)) == Some(st1));
    assert(list_run(st0, seq![open_ev]) == Some(st1));
    assert(items_events(ids).push(close_users) =~= items_events(ids) + seq![close_users]);
    lemma_list_run_append(st1, items_events(ids), seq![close_users]);
    lemma_items_run(st1, ids);
    let st2 = ListState { ids: Seq::empty() + ids, total: Some(total), mode: ListMode::Outside };
    assert(list_step(st2, close_users) == Some(st2));
    assert(seq![close_users].skip(1) =~= Seq::<SpecEvent>::empty());
    assert(list_run(st2, seq![close_users].skip(1)) == Some(st2));
    assert(list_run(st2, seq![close_users]) == Some(st2));
    assert(Seq::empty() + ids =~= ids);
    assert(list_run(st0, evs) == Some(
        ListState { ids, total: Some(total), mode: ListMode::Outside },
    ));
}

/// A listing body whose outer element lacks the total-count attribute still
/// yields its identifiers, but no total: requiring the total is then a
/// decode failure.
#[verifier::rlimit(80)]
pub proof fn lemma_listing_missing_total(ids: Seq<Seq<char>>)
    requires
        forall|k: int| 0 <= k < ids.len() ==> id_text_ok(#[trigger] ids[k]),
    ensures
        spec_decode_listing("<users>"@ + spec_encode_items(ids) + "</users>"@) == Some(
            (ids, None::<int>),
        ),
{
    reveal_strlit("<users>");
    reveal_strlit("users");
    let x = "<users>"@ + spec_encode_items(ids) + "</users>"@;
    let z = spec_encode_items(ids) + "</users>"@;
    assert(x =~= seq!['<'] + "users"@ + seq!['>'] + z);
    assert(forall|j: int| 0 <= j < "users"@.len() ==> "users"@[j] != '>');
    lemma_scan_leading_tag(x, "users"@, z);
    assert(crate::text::is_name("users"@));
    lemma_tag_body_plain_open("users"@);
    lemma_scan_items(z, ids);
    let open_ev = SpecEvent::Open { name: "users"@, attrs: Seq::<SpecAttr>::empty() };
    let close_users = SpecEvent::Close { name: "users"@ };
    let evs = seq![open_ev] + items_events(ids).push(close_users);
    assert(spec_scan(x) == Some(evs));
    let st0 = init_list_state();
    assert(attr_total(Seq::<SpecAttr>::empty()) == None::<int>);
    let st1 = ListState { ids: Seq::empty(), total: None, mode: ListMode::Outside };
    assert(list_step(st0, open_ev) == Some(st1));
    lemma_list_run_append(st0, seq![open_ev], items_events(ids).push(close_users));
    assert(seq![open_ev].skip(1) =~= Seq::<SpecEvent>::empty());
    assert(list_run(st1, seq![open_ev].skip(1)) == Some(st1));
    assert(list_run(st0, seq![open_ev]) == Some(st1));
    assert(items_events(ids).push(close_users) =~= items_events(ids) + seq![close_users]);
    lemma_list_run_append(st1, items_events(ids), seq![close_users]);
    lemma_items_run(st1, ids);
    let st2 = ListState { ids: Seq::empty() + ids, total: None, mode: ListMode::Outside };
    assert(list_step(st2, close_users) == Some(st2));
    assert(seq![close_users].skip(1) =~= Seq::<SpecEvent>::empty());
    assert(list_run(st2, seq![close_users].skip(1)) == Some(st2));
    assert(list_run(st2, seq![close_users]) == Some(st2));
    assert(Seq::empty() + ids =~= ids);
    assert(list_run(st0, evs) == Some(
        ListState { ids, total: None, mode: ListMode::Outside },
    ));
}

} // verus!
