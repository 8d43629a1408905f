//! The record transformation rule.
//!
//! Given a record document and a rule configuration, decide whether the
//! record needs to be written back, and if so how it looks afterwards.  The
//! sub-rules: normalize the title (drop it when it lacks a description,
//! upper-case its value otherwise), prune sentinel role parameters, and drop
//! statistic entries whose category is configured for removal — plus, on
//! records whose group is classified external, entries marked with the
//! internal segment, each of which is reported rather than dropped silently.
//!
//! A record counts as changed exactly when the edited document differs
//! from the input — a removed or re-cased title, a pruned role parameter or
//! a dropped statistic all count; only a changed record is written back.  A
//! record that is not an object is returned unchanged, without notes.

use vstd::prelude::*;

use crate::document::{dview_arr, dview_obj, lemma_dview_arr, lemma_dview_obj, spec_get,
    spec_lookup, SpecValue, Value};
use crate::text::str_eq;

verus! {

/// The rule configuration: which sub-rules are active, and the configured
/// sets.
pub struct TransformConfig {
    pub normalize_title: bool,
    pub prune_role_parameters: bool,
    pub categories_to_remove: Vec<String>,
    pub external_groups: Vec<String>,
}

pub struct SpecTransformConfig {
    pub normalize_title: bool,
    pub prune_role_parameters: bool,
    pub categories_to_remove: Seq<Seq<char>>,
    pub external_groups: Seq<Seq<char>>,
}

impl DeepView for TransformConfig {
    type V = SpecTransformConfig;

    open spec fn deep_view(&self) -> SpecTransformConfig {
        SpecTransformConfig {
            normalize_title: self.normalize_title,
            prune_role_parameters: self.prune_role_parameters,
            categories_to_remove: self.categories_to_remove.deep_view(),
            external_groups: self.external_groups.deep_view(),
        }
    }
}

/// What was observed while transforming, for the caller to report.
#[derive(Debug)]
pub enum TransformNote {
    /// The record's title lacks a description.
    TitleWithoutDescription,
    /// The statistic at this position carries the internal segment on a
    /// record whose group is classified external; it is dropped.
    InternalStatistic { index: usize },
}

pub enum SpecNote {
    TitleWithoutDescription,
    InternalStatistic { index: int },
}

impl DeepView for TransformNote {
    type V = SpecNote;

    open spec fn deep_view(&self) -> SpecNote {
        match self {
            TransformNote::TitleWithoutDescription => SpecNote::TitleWithoutDescription,
            TransformNote::InternalStatistic { index } => SpecNote::InternalStatistic {
                index: *index as int,
            },
        }
    }
}

/// The outcome: nothing to write back, or the edited record.
pub enum Transformed {
    Unchanged,
    Changed(Value),
}

/// The name of what `str::to_uppercase` returns: the upper-case form of a
/// string, a function of its characters alone.
pub uninterp spec fn upper_of(s: Seq<char>) -> Seq<char>;

/// Relies on `str::to_uppercase`: the result depends on the characters of
/// the input alone, and is a fixed point of the mapping — Unicode's
/// uppercase mapping sends uppercase text to itself.
#[verifier::external_body]
fn upper_str(s: &str) -> (r: String)
    ensures
        r@ == upper_of(s@),
        upper_of(r@) == r@,
{
    s.to_uppercase()
}

/// The record's group classification: the text of `user_group.value`, empty
/// when absent or not a string.
pub open spec fn group_of(rec: SpecValue) -> Seq<char> {
    match spec_get(rec, "user_group"@) {
        Some(g) => match spec_get(g, "value"@) {
            Some(SpecValue::Str(s)) => s,
            _ => Seq::empty(),
        },
        _ => Seq::empty(),
    }
}

/// Whether a statistic entry carries the internal segment marker.
pub open spec fn is_internal(s: SpecValue) -> bool {
    spec_get(s, "segment_type"@) == Some(SpecValue::Str("Internal"@))
}

/// A statistic entry's category value, when present as a string.
pub open spec fn category_of(s: SpecValue) -> Option<Seq<char>> {
    match spec_get(s, "category_type"@) {
        Some(ct) => match spec_get(ct, "value"@) {
            Some(SpecValue::Str(c)) => Some(c),
            _ => None,
        },
        _ => None,
    }
}

/// Whether a statistic entry stays.  Entries with unknown or missing
/// sub-fields always stay.
pub open spec fn keep_stat(
    cfg: SpecTransformConfig,
    group: Seq<char>,
    s: SpecValue,
) -> bool {
    if is_internal(s) && cfg.external_groups.contains(group) {
        false
    } else {
        match category_of(s) {
            Some(cat) => !cfg.categories_to_remove.contains(cat),
            None => true,
        }
    }
}

/// Whether the title note is reported: the rule is active and the record has
/// no title description to keep.
pub open spec fn title_note(fields: Seq<(Seq<char>, SpecValue)>, cfg: SpecTransformConfig) -> bool {
    cfg.normalize_title && (match spec_lookup(fields, "user_title"@) {
        None => true,
        Some(t) => spec_get(t, "desc"@) is None,
    })
}

/// The reported notes: the title note first, then one note per dropped
/// internal-segment statistic, in order.
pub open spec fn internal_notes(
    cfg: SpecTransformConfig,
    group: Seq<char>,
    stats: Seq<SpecValue>,
    i: int,
) -> Seq<SpecNote>
    decreases stats.len() - i,
{
    if i < 0 || i >= stats.len() {
        Seq::empty()
    } else if is_internal(stats[i]) && cfg.external_groups.contains(group) {
        seq![SpecNote::InternalStatistic { index: i }] + internal_notes(cfg, group, stats, i + 1)
    } else {
        internal_notes(cfg, group, stats, i + 1)
    }
}

pub open spec fn spec_notes(rec: SpecValue, cfg: SpecTransformConfig) -> Seq<SpecNote> {
    match rec {
        SpecValue::Obj(fields) => {
            let title = if title_note(fields, cfg) {
                seq![SpecNote::TitleWithoutDescription]
            } else {
                Seq::empty()
            };
            match spec_lookup(fields, "user_statistic"@) {
                Some(SpecValue::Arr(stats)) => title + internal_notes(
                    cfg,
                    group_of(rec),
                    stats,
                    0,
                ),
                _ => title,
            }
        },
        _ => Seq::empty(),
    }
}

/// Remove every binding of a key.
pub open spec fn obj_remove(
    fields: Seq<(Seq<char>, SpecValue)>,
    key: Seq<char>,
) -> Seq<(Seq<char>, SpecValue)>
    decreases fields.len(),
{
    if fields.len() == 0 {
        fields
    } else if fields[0].0 == key {
        obj_remove(fields.skip(1), key)
    } else {
        seq![fields[0]] + obj_remove(fields.skip(1), key)
    }
}

/// Replace the value of the first binding of a key; without one, no change.
pub open spec fn obj_update_first(
    fields: Seq<(Seq<char>, SpecValue)>,
    key: Seq<char>,
    v: SpecValue,
) -> Seq<(Seq<char>, SpecValue)>
    decreases fields.len(),
{
    if fields.len() == 0 {
        fields
    } else if fields[0].0 == key {
        fields.update(0, (key, v))
    } else {
        seq![fields[0]] + obj_update_first(fields.skip(1), key, v)
    }
}

/// The title sub-rule on a record's fields.
pub open spec fn spec_title_edit(
    fields: Seq<(Seq<char>, SpecValue)>,
    cfg: SpecTransformConfig,
) -> Seq<(Seq<char>, SpecValue)> {
    if !cfg.normalize_title {
        fields
    } else {
        match spec_lookup(fields, "user_title"@) {
            None => fields,
            Some(t) => {
                if spec_get(t, "desc"@) is None {
                    obj_remove(fields, "user_title"@)
                } else {
                    match spec_get(t, "value"@) {
                        Some(SpecValue::Str(s)) => obj_update_first(
                            fields,
                            "user_title"@,
                            obj_set_value(t, upper_of(s)),
                        ),
                        _ => fields,
                    }
                }
            },
        }
    }
}

/// A title object with its `value` field replaced by an upper-cased string.
pub open spec fn obj_set_value(t: SpecValue, s: Seq<char>) -> SpecValue {
    match t {
        SpecValue::Obj(tf) => SpecValue::Obj(
            obj_update_first(tf, "value"@, SpecValue::Str(s)),
        ),
        _ => t,
    }
}

/// Whether a role parameter stays: dropped when its value is the circulation
/// desk sentinel or its description is the empty string.
pub open spec fn keep_param(p: SpecValue) -> bool {
    !(spec_get2(p, "value"@, "value"@) == Some(SpecValue::Str("DEFAULT_CIRC_DESK"@))
        || spec_get2(p, "value"@, "desc"@) == Some(SpecValue::Str(Seq::empty())))
}

pub open spec fn spec_get2(v: SpecValue, k1: Seq<char>, k2: Seq<char>) -> Option<SpecValue> {
    match spec_get(v, k1) {
        Some(inner) => spec_get(inner, k2),
        None => None,
    }
}

/// One role with its parameter list pruned.
pub open spec fn spec_prune_role(role: SpecValue) -> SpecValue {
    match role {
        SpecValue::Obj(rf) => match spec_lookup(rf, "parameter"@) {
            Some(SpecValue::Arr(params)) => SpecValue::Obj(
                obj_update_first(
                    rf,
                    "parameter"@,
                    SpecValue::Arr(params.filter(|p: SpecValue| keep_param(p))),
                ),
            ),
            _ => role,
        },
        _ => role,
    }
}

/// The role sub-rule on a record's fields.
pub open spec fn spec_role_edit(
    fields: Seq<(Seq<char>, SpecValue)>,
    cfg: SpecTransformConfig,
) -> Seq<(Seq<char>, SpecValue)> {
    if !cfg.prune_role_parameters {
        fields
    } else {
        match spec_lookup(fields, "user_role"@) {
            Some(SpecValue::Arr(roles)) => obj_update_first(
                fields,
                "user_role"@,
                SpecValue::Arr(roles.map_values(|r: SpecValue| spec_prune_role(r))),
            ),
            _ => fields,
        }
    }
}

/// The statistic sub-rule on a record's fields.
pub open spec fn spec_stats_edit(
    fields: Seq<(Seq<char>, SpecValue)>,
    cfg: SpecTransformConfig,
    group: Seq<char>,
) -> Seq<(Seq<char>, SpecValue)> {
    match spec_lookup(fields, "user_statistic"@) {
        Some(SpecValue::Arr(stats)) => obj_update_first(
            fields,
            "user_statistic"@,
            SpecValue::Arr(stats.filter(|s: SpecValue| keep_stat(cfg, group, s))),
        ),
        _ => fields,
    }
}

/// All sub-rules, in order: title, roles, statistics.
pub open spec fn spec_edit(
    fields: Seq<(Seq<char>, SpecValue)>,
    cfg: SpecTransformConfig,
) -> Seq<(Seq<char>, SpecValue)> {
    spec_stats_edit(
        spec_role_edit(spec_title_edit(fields, cfg), cfg),
        cfg,
        group_of(SpecValue::Obj(fields)),
    )
}

/// The transformed record: `Some` exactly when the edited document differs
/// from the input, carrying all edits; `None` when nothing changed.
pub open spec fn spec_transform(rec: SpecValue, cfg: SpecTransformConfig) -> Option<SpecValue> {
    match rec {
        SpecValue::Obj(fields) => {
            let edited = spec_edit(fields, cfg);
            if edited == fields {
                None
            } else {
                Some(SpecValue::Obj(edited))
            }
        },
        _ => None,
    }
}

/// The title value the rule would upper-case, if any.
pub open spec fn spec_title_target(
    fields: Seq<(Seq<char>, SpecValue)>,
    cfg: SpecTransformConfig,
) -> Option<Seq<char>> {
    if !cfg.normalize_title {
        None
    } else {
        match spec_lookup(fields, "user_title"@) {
            None => None,
            Some(t) => {
                if spec_get(t, "desc"@) is None {
                    None
                } else {
                    match spec_get(t, "value"@) {
                        Some(SpecValue::Str(s)) => Some(s),
                        _ => None,
                    }
                }
            },
        }
    }
}

/// The upper-casing fact the rule needs of a record: its title value, if
/// the rule would upper-case one, is sent to a fixed point.  Every call of
/// the upper-casing function establishes this of the value it was given.
pub open spec fn title_upper_stable(rec: SpecValue, cfg: SpecTransformConfig) -> bool {
    match rec {
        SpecValue::Obj(fields) => match spec_title_target(fields, cfg) {
            Some(s) => upper_of(upper_of(s)) == upper_of(s),
            None => true,
        },
        _ => true,
    }
}

/// The record after the rule: the edited record when it changed, the record
/// itself when it did not.
pub open spec fn apply_transform(rec: SpecValue, cfg: SpecTransformConfig) -> SpecValue {
    match spec_transform(rec, cfg) {
        Some(edited) => edited,
        None => rec,
    }
}

/// Replacing one key's value leaves every other key's lookup alone, and the
/// key's own lookup becomes the new value when a binding exists.
pub proof fn lemma_lookup_update_first(
    fields: Seq<(Seq<char>, SpecValue)>,
    key: Seq<char>,
    v: SpecValue,
    k2: Seq<char>,
)
    ensures
        k2 != key ==> spec_lookup(obj_update_first(fields, key, v), k2) == spec_lookup(
            fields,
            k2,
        ),
        k2 == key ==> spec_lookup(obj_update_first(fields, key, v), k2) == (
        match spec_lookup(fields, key) {
            Some(_) => Some(v),
            None => None::<SpecValue>,
        }),
    decreases fields.len(),
{
    if fields.len() == 0 {
    } else if fields[0].0 == key {
        let nf = fields.update(0, (key, v));
        assert(nf[0] == (key, v));
        assert(nf.skip(1) =~= fields.skip(1));
    } else {
        lemma_lookup_update_first(fields.skip(1), key, v, k2);
        let nf = seq![fields[0]] + obj_update_first(fields.skip(1), key, v);
        assert(nf[0] == fields[0]);
        assert(nf.skip(1) =~= obj_update_first(fields.skip(1), key, v));
    }
}

/// Removing one key leaves every other key's lookup alone.
pub proof fn lemma_lookup_remove(
    fields: Seq<(Seq<char>, SpecValue)>,
    key: Seq<char>,
    k2: Seq<char>,
)
    requires
        k2 != key,
    ensures
        spec_lookup(obj_remove(fields, key), k2) == spec_lookup(fields, k2),
    decreases fields.len(),
{
    if fields.len() == 0 {
    } else if fields[0].0 == key {
        lemma_lookup_remove(fields.skip(1), key, k2);
    } else {
        lemma_lookup_remove(fields.skip(1), key, k2);
        let nf = seq![fields[0]] + obj_remove(fields.skip(1), key);
        assert(nf[0] == fields[0]);
        assert(nf.skip(1) =~= obj_remove(fields.skip(1), key));
    }
}

/// A filter whose predicate holds everywhere changes nothing.
proof fn lemma_filter_identity(s: Seq<SpecValue>, p: spec_fn(SpecValue) -> bool)
    requires
        forall|i: int| 0 <= i < s.len() ==> p(#[trigger] s[i]),
    ensures
        s.filter(p) =~= s,
    decreases s.len(),
{
    reveal(Seq::filter);
    if s.len() > 0 {
        lemma_filter_identity(s.drop_last(), p);
    }
}

/// One filter step, for loops that filter left to right.
proof fn lemma_filter_one(s: Seq<SpecValue>, x: SpecValue, p: spec_fn(SpecValue) -> bool)
    ensures
        (s + seq![x]).filter(p) == (if p(x) {
            s.filter(p).push(x)
        } else {
            s.filter(p)
        }),
{
    reveal(Seq::filter);
    assert((s + seq![x]).drop_last() =~= s);
    assert((s + seq![x]).last() == x);
    assert((s + seq![x]).len() == s.len() + 1);
}

/// The sub-rule edits never touch the group or statistic bindings other than
/// the statistic replacement itself.
proof fn lemma_edits_preserve(
    fields: Seq<(Seq<char>, SpecValue)>,
    cfg: SpecTransformConfig,
    k2: Seq<char>,
)
    requires
        k2 != "user_title"@,
        k2 != "user_role"@,
    ensures
        spec_lookup(spec_role_edit(spec_title_edit(fields, cfg), cfg), k2) == spec_lookup(
            fields,
            k2,
        ),
{
    let f1 = spec_title_edit(fields, cfg);
    if cfg.normalize_title {
        match spec_lookup(fields, "user_title"@) {
            None => {},
            Some(t) => {
                if spec_get(t, "desc"@) is None {
                    lemma_lookup_remove(fields, "user_title"@, k2);
                } else {
                    match spec_get(t, "value"@) {
                        Some(SpecValue::Str(s)) => {
                            lemma_lookup_update_first(
                                fields,
                                "user_title"@,
                                obj_set_value(t, upper_of(s)),
                                k2,
                            );
                        },
                        _ => {},
                    }
                }
            },
        }
    }
    assert(spec_lookup(f1, k2) == spec_lookup(fields, k2));
    if cfg.prune_role_parameters {
        match spec_lookup(f1, "user_role"@) {
            Some(SpecValue::Arr(roles)) => {
                lemma_lookup_update_first(
                    f1,
                    "user_role"@,
                    SpecValue::Arr(roles.map_values(|r: SpecValue| spec_prune_role(r))),
                    k2,
                );
            },
            _ => {},
        }
    }
}

/// Replacing a key's binding with the value it already has changes nothing.
proof fn lemma_update_first_self(
    fields: Seq<(Seq<char>, SpecValue)>,
    key: Seq<char>,
    v: SpecValue,
)
    requires
        spec_lookup(fields, key) == Some(v),
    ensures
        obj_update_first(fields, key, v) == fields,
    decreases fields.len(),
{
    if fields.len() == 0 {
    } else if fields[0].0 == key {
        assert(fields.update(0, (key, v)) =~= fields);
    } else {
        lemma_update_first_self(fields.skip(1), key, v);
        assert(seq![fields[0]] + fields.skip(1) =~= fields);
    }
}

/// After removing a key, it has no binding left.
proof fn lemma_lookup_remove_self(fields: Seq<(Seq<char>, SpecValue)>, key: Seq<char>)
    ensures
        spec_lookup(obj_remove(fields, key), key) is None,
    decreases fields.len(),
{
    if fields.len() == 0 {
    } else if fields[0].0 == key {
        lemma_lookup_remove_self(fields.skip(1), key);
    } else {
        lemma_lookup_remove_self(fields.skip(1), key);
        let nf = seq![fields[0]] + obj_remove(fields.skip(1), key);
        assert(nf[0] == fields[0]);
        assert(nf.skip(1) =~= obj_remove(fields.skip(1), key));
    }
}

/// Pruning a role's parameters twice is pruning them once.
proof fn lemma_prune_role_idem(role: SpecValue)
    ensures
        spec_prune_role(spec_prune_role(role)) == spec_prune_role(role),
{
    match role {
        SpecValue::Obj(rf) => {
            match spec_lookup(rf, "parameter"@) {
                Some(SpecValue::Arr(params)) => {
                    let pred = |p: SpecValue| keep_param(p);
                    let filtered = params.filter(pred);
                    let rf2 = obj_update_first(rf, "parameter"@, SpecValue::Arr(filtered));
                    lemma_lookup_update_first(
                        rf,
                        "parameter"@,
                        SpecValue::Arr(filtered),
                        "parameter"@,
                    );
                    assert(spec_lookup(rf2, "parameter"@) == Some(SpecValue::Arr(filtered)));
                    assert(forall|i: int|
                        0 <= i < filtered.len() ==> pred(#[trigger] filtered[i])) by {
                        assert forall|i: int| 0 <= i < filtered.len() implies pred(
                            filtered[i],
                        ) by {
                            Seq::lemma_filter_pred(params, pred, i);
                        }
                    }
                    lemma_filter_identity(filtered, pred);
                    lemma_update_first_self(rf2, "parameter"@, SpecValue::Arr(filtered));
                },
                _ => {},
            }
        },
        _ => {},
    }
}

/// The whole edit pipeline never touches bindings other than the three it
/// edits.
proof fn lemma_edit_preserves(
    fields: Seq<(Seq<char>, SpecValue)>,
    cfg: SpecTransformConfig,
    k2: Seq<char>,
)
    requires
        k2 != "user_title"@,
        k2 != "user_role"@,
        k2 != "user_statistic"@,
    ensures
        spec_lookup(spec_edit(fields, cfg), k2) == spec_lookup(fields, k2),
{
    lemma_edits_preserve(fields, cfg, k2);
    let f2 = spec_role_edit(spec_title_edit(fields, cfg), cfg);
    let g = group_of(SpecValue::Obj(fields));
    match spec_lookup(f2, "user_statistic"@) {
        Some(SpecValue::Arr(stats)) => {
            lemma_lookup_update_first(
                f2,
                "user_statistic"@,
                SpecValue::Arr(stats.filter(|s: SpecValue| keep_stat(cfg, g, s))),
                k2,
            );
        },
        _ => {},
    }
}

/// One pass of the edit pipeline reaches a fixed point: editing an already
/// edited document changes nothing.  The one hypothesis is the upper-casing
/// fact that every call of the upper-casing function establishes of the
/// value it was given.
proof fn lemma_edit_idempotent(fields: Seq<(Seq<char>, SpecValue)>, cfg: SpecTransformConfig)
    requires
        match spec_title_target(fields, cfg) {
            Some(s) => upper_of(upper_of(s)) == upper_of(s),
            None => true,
        },
    ensures
        spec_edit(spec_edit(fields, cfg), cfg) == spec_edit(fields, cfg),
{
    reveal_strlit("user_group");
    reveal_strlit("user_title");
    reveal_strlit("user_role");
    reveal_strlit("user_statistic");
    reveal_strlit("value");
    reveal_strlit("desc");
    assert("user_group"@ != "user_title"@) by {
        assert("user_group"@[5] == 'g');
        assert("user_title"@[5] == 't');
    }
    assert("user_group"@.len() == 10);
    assert("user_role"@.len() == 9);
    assert("user_statistic"@.len() == 14);
    assert("user_title"@.len() == 10);
    assert("value"@.len() == 5);
    assert("desc"@.len() == 4);
    let g = group_of(SpecValue::Obj(fields));
    let f1 = spec_title_edit(fields, cfg);
    let f2 = spec_role_edit(f1, cfg);
    let pred = |s: SpecValue| keep_stat(cfg, g, s);
    let edited = spec_edit(fields, cfg);
    // The group is untouched, so the second pass filters by the same rule.
    lemma_edit_preserves(fields, cfg, "user_group"@);
    assert(group_of(SpecValue::Obj(edited)) == g);
    // The statistic stage: what it wrote, and that redoing it changes
    // nothing; also how it relates `edited` to `f2`.
    match spec_lookup(f2, "user_statistic"@) {
        Some(SpecValue::Arr(stats)) => {
            let kept = stats.filter(pred);
            assert(edited == obj_update_first(f2, "user_statistic"@, SpecValue::Arr(kept)));
            lemma_lookup_update_first(
                f2,
                "user_statistic"@,
                SpecValue::Arr(kept),
                "user_statistic"@,
            );
            assert(spec_lookup(edited, "user_statistic"@) == Some(SpecValue::Arr(kept)));
            lemma_lookup_update_first(f2, "user_statistic"@, SpecValue::Arr(kept), "user_title"@);
            lemma_lookup_update_first(f2, "user_statistic"@, SpecValue::Arr(kept), "user_role"@);
            assert(forall|i: int| 0 <= i < kept.len() ==> pred(#[trigger] kept[i])) by {
                assert forall|i: int| 0 <= i < kept.len() implies pred(kept[i]) by {
                    Seq::lemma_filter_pred(stats, pred, i);
                }
            }
            lemma_filter_identity(kept, pred);
            lemma_update_first_self(edited, "user_statistic"@, SpecValue::Arr(kept));
            assert(spec_stats_edit(edited, cfg, g) == edited);
        },
        _ => {
            assert(edited == f2);
            assert(spec_stats_edit(edited, cfg, g) == edited);
        },
    }
    assert(spec_lookup(edited, "user_title"@) == spec_lookup(f2, "user_title"@));
    assert(spec_lookup(edited, "user_role"@) == spec_lookup(f2, "user_role"@));
    // The role stage left the title binding alone.
    if cfg.prune_role_parameters {
        match spec_lookup(f1, "user_role"@) {
            Some(SpecValue::Arr(roles)) => {
                lemma_lookup_update_first(
                    f1,
                    "user_role"@,
                    SpecValue::Arr(roles.map_values(|r: SpecValue| spec_prune_role(r))),
                    "user_title"@,
                );
            },
            _ => {},
        }
    }
    assert(spec_lookup(f2, "user_title"@) == spec_lookup(f1, "user_title"@));
    // The title stage is a fixed point on `edited`.
    if cfg.normalize_title {
        match spec_lookup(fields, "user_title"@) {
            None => {
                assert(f1 == fields);
                assert(spec_title_edit(edited, cfg) == edited);
            },
            Some(t) => {
                if spec_get(t, "desc"@) is None {
                    assert(f1 == obj_remove(fields, "user_title"@));
                    lemma_lookup_remove_self(fields, "user_title"@);
                    assert(spec_title_edit(edited, cfg) == edited);
                } else {
                    match spec_get(t, "value"@) {
                        Some(SpecValue::Str(s)) => {
                            let tf = t->Obj_0;
                            let t2 = obj_set_value(t, upper_of(s));
                            let tf2 = obj_update_first(tf, "value"@, SpecValue::Str(upper_of(s)));
                            assert(t2 == SpecValue::Obj(tf2));
                            assert(f1 == obj_update_first(fields, "user_title"@, t2));
                            lemma_lookup_update_first(fields, "user_title"@, t2, "user_title"@);
                            assert(spec_lookup(edited, "user_title"@) == Some(t2));
                            lemma_lookup_update_first(
                                tf,
                                "value"@,
                                SpecValue::Str(upper_of(s)),
                                "desc"@,
                            );
                            assert(spec_get(t2, "desc"@) == spec_get(t, "desc"@));
                            lemma_lookup_update_first(
                                tf,
                                "value"@,
                                SpecValue::Str(upper_of(s)),
                                "value"@,
                            );
                            assert(spec_get(t2, "value"@) == Some(SpecValue::Str(upper_of(s))));
                            // The second pass writes the same value back.
                            assert(spec_title_target(fields, cfg) == Some(s));
                            assert(upper_of(upper_of(s)) == upper_of(s));
                            lemma_update_first_self(tf2, "value"@, SpecValue::Str(upper_of(s)));
                            assert(obj_set_value(t2, upper_of(upper_of(s))) == t2);
                            lemma_update_first_self(edited, "user_title"@, t2);
                            assert(spec_title_edit(edited, cfg) == edited);
                        },
                        _ => {
                            assert(f1 == fields);
                            assert(spec_title_edit(edited, cfg) == edited);
                        },
                    }
                }
            },
        }
    } else {
        assert(spec_title_edit(edited, cfg) == edited);
    }
    // The role stage is a fixed point on `edited`.
    if cfg.prune_role_parameters {
        match spec_lookup(f1, "user_role"@) {
            Some(SpecValue::Arr(roles)) => {
                let mapped = roles.map_values(|r: SpecValue| spec_prune_role(r));
                assert(f2 == obj_update_first(f1, "user_role"@, SpecValue::Arr(mapped)));
                lemma_lookup_update_first(f1, "user_role"@, SpecValue::Arr(mapped), "user_role"@);
                assert(spec_lookup(edited, "user_role"@) == Some(SpecValue::Arr(mapped)));
                let mapped2 = mapped.map_values(|r: SpecValue| spec_prune_role(r));
                assert(mapped2 =~= mapped) by {
                    assert forall|i: int| 0 <= i < mapped.len() implies mapped2[i]
                        == mapped[i] by {
                        lemma_prune_role_idem(roles[i]);
                    }
                }
                lemma_update_first_self(edited, "user_role"@, SpecValue::Arr(mapped));
                assert(spec_role_edit(edited, cfg) == edited);
            },
            _ => {
                assert(f2 == f1);
                assert(spec_role_edit(edited, cfg) == edited);
            },
        }
    } else {
        assert(spec_role_edit(edited, cfg) == edited);
    }
    // Chain the three fixed stages.
    assert(spec_edit(edited, cfg) == spec_stats_edit(
        spec_role_edit(spec_title_edit(edited, cfg), cfg),
        cfg,
        group_of(SpecValue::Obj(edited)),
    ));
    assert(spec_edit(edited, cfg) == edited);
}

/// Transform idempotence: applying the rule to a record it has already
/// produced (or left alone) reports no further change — everything it would
/// strip is already gone, and the title it wrote is already in upper-case
/// form.  The hypothesis is the upper-casing fact that every call of the
/// upper-casing function establishes of the value it was given;
/// `transform_record` also states this conclusion directly of its result,
/// with no hypothesis.
pub proof fn lemma_transform_idempotent(rec: SpecValue, cfg: SpecTransformConfig)
    requires
        title_upper_stable(rec, cfg),
    ensures
        spec_transform(apply_transform(rec, cfg), cfg) is None,
{
    match rec {
        SpecValue::Obj(fields) => {
            lemma_edit_idempotent(fields, cfg);
            let edited = spec_edit(fields, cfg);
            if edited == fields {
            } else {
                assert(apply_transform(rec, cfg) == SpecValue::Obj(edited));
            }
        },
        _ => {},
    }
}

/// The value of the first field named `key` among object fields.
fn fields_get<'a>(fields: &'a Vec<(String, Value)>, key: &str) -> (r: Option<&'a Value>)
    ensures
        match r {
            Some(f) => spec_lookup(dview_obj(fields@), key@) == Some(f.dview()),
            None => spec_lookup(dview_obj(fields@), key@) is None,
        },
{
    let ghost dv = dview_obj(fields@);
    proof {
        lemma_dview_obj(fields@);
        assert(dv.skip(0) =~= dv);
    }
    let mut k: usize = 0;
    while k < fields.len()
        invariant
            k <= fields@.len(),
            dv == dview_obj(fields@),
            dv.len() == fields@.len(),
            forall|i: int|
                0 <= i < fields@.len() ==> dv[i] == (fields@[i].0@, fields@[i].1.dview()),
            spec_lookup(dv.skip(k as int), key@) == spec_lookup(dv, key@),
        decreases fields@.len() - k,
    {
        assert(dv.skip(k as int)[0] == dv[k as int]);
        if str_eq(fields[k].0.as_str(), key) {
            assert(spec_lookup(dv.skip(k as int), key@) == Some(dv[k as int].1));
            return Some(&fields[k].1);
        }
        proof {
            assert(dv.skip(k as int).skip(1) =~= dv.skip(k as int + 1));
        }
        k += 1;
    }
    assert(dv.skip(dv.len() as int) =~= Seq::<(Seq<char>, SpecValue)>::empty());
    None
}

/// Membership of a string in a configured set.
fn contains_str(set: &Vec<String>, s: &str) -> (r: bool)
    ensures
        r == set.deep_view().contains(s@),
{
    let ghost dv = set.deep_view();
    let mut k: usize = 0;
    while k < set.len()
        invariant
            k <= set@.len(),
            dv == set.deep_view(),
            dv.len() == set@.len(),
            forall|j: int| 0 <= j < k ==> dv[j] != s@,
        decreases set@.len() - k,
    {
        if str_eq(set[k].as_str(), s) {
            assert(dv[k as int] == s@);
            return true;
        }
        k += 1;
    }
    assert(!dv.contains(s@));
    false
}

fn stat_is_internal(s: &Value) -> (r: bool)
    ensures
        r == is_internal(s.dview()),
{
    match s.get("segment_type") {
        Some(v) => match v.as_str() {
            Some(t) => str_eq(t.as_str(), "Internal"),
            None => false,
        },
        None => false,
    }
}

fn keep_stat_exec(cfg: &TransformConfig, group: &str, s: &Value) -> (r: bool)
    ensures
        r == keep_stat(cfg.deep_view(), group@, s.dview()),
{
    if stat_is_internal(s) && contains_str(&cfg.external_groups, group) {
        return false;
    }
    match s.get("category_type") {
        Some(ct) => match ct.get("value") {
            Some(v) => match v.as_str() {
                Some(cat) => !contains_str(&cfg.categories_to_remove, cat.as_str()),
                None => true,
            },
            None => true,
        },
        None => true,
    }
}

fn group_of_exec(record: &Value) -> (r: String)
    ensures
        r@ == group_of(record.dview()),
{
    match record.get("user_group") {
        Some(g) => match g.get("value") {
            Some(v) => match v.as_str() {
                Some(s) => s.clone(),
                None => String::new(),
            },
            None => String::new(),
        },
        None => String::new(),
    }
}

/// An equal copy of an object's fields.
fn clone_fields(fields: &Vec<(String, Value)>) -> (r: Vec<(String, Value)>)
    ensures
        dview_obj(r@) == dview_obj(fields@),
{
    let mut out: Vec<(String, Value)> = Vec::new();
    let n: usize = fields.len();
    let mut i: usize = 0;
    proof {
        lemma_dview_obj(fields@);
    }
    while i < n
        invariant
            i <= n,
            n == fields@.len(),
            forall|j: int|
                0 <= j < n ==> dview_obj(fields@)[j] == (fields@[j].0@, fields@[j].1.dview()),
            dview_obj(fields@).len() == n,
            out@.len() == i,
            forall|j: int|
                0 <= j < i ==> out@[j].0@ == fields@[j].0@ && out@[j].1.dview()
                    == fields@[j].1.dview(),
        decreases n - i,
    {
        let key = fields[i].0.clone();
        let copy = fields[i].1.duplicate();
        out.push((key, copy));
        i += 1;
    }
    proof {
        lemma_dview_obj(out@);
        assert(dview_obj(out@) =~= dview_obj(fields@));
    }
    out
}

/// The fields with every binding of `key` removed.
fn remove_field_exec(fields: &Vec<(String, Value)>, key: &str) -> (r: Vec<(String, Value)>)
    ensures
        dview_obj(r@) == obj_remove(dview_obj(fields@), key@),
{
    let ghost dv = dview_obj(fields@);
    proof {
        lemma_dview_obj(fields@);
        assert(dv.skip(0) =~= dv);
        assert(Seq::<(Seq<char>, SpecValue)>::empty() + obj_remove(dv, key@) =~= obj_remove(
            dv,
            key@,
        ));
    }
    let mut out: Vec<(String, Value)> = Vec::new();
    let mut k: usize = 0;
    while k < fields.len()
        invariant
            k <= fields@.len(),
            dv == dview_obj(fields@),
            dv.len() == fields@.len(),
            forall|i: int|
                0 <= i < fields@.len() ==> dv[i] == (fields@[i].0@, fields@[i].1.dview()),
            dview_obj(out@).len() == out@.len(),
            forall|i: int|
                0 <= i < out@.len() ==> dview_obj(out@)[i] == (out@[i].0@, out@[i].1.dview()),
            obj_remove(dv, key@) == dview_obj(out@) + obj_remove(dv.skip(k as int), key@),
        decreases fields@.len() - k,
    {
        assert(dv.skip(k as int)[0] == dv[k as int]);
        let ghost old_out = dview_obj(out@);
        if str_eq(fields[k].0.as_str(), key) {
            proof {
                assert(obj_remove(dv.skip(k as int), key@) == obj_remove(
                    dv.skip(k as int).skip(1),
                    key@,
                ));
                assert(dv.skip(k as int).skip(1) =~= dv.skip(k as int + 1));
            }
        } else {
            let keyc = fields[k].0.clone();
            let copy = fields[k].1.duplicate();
            out.push((keyc, copy));
            proof {
                lemma_dview_obj(out@);
                assert(dview_obj(out@) =~= old_out.push(dv[k as int]));
                assert(obj_remove(dv.skip(k as int), key@) == seq![dv[k as int]] + obj_remove(
                    dv.skip(k as int).skip(1),
                    key@,
                ));
                assert(dv.skip(k as int).skip(1) =~= dv.skip(k as int + 1));
                assert(old_out + (seq![dv[k as int]] + obj_remove(dv.skip(k as int + 1), key@))
                    =~= old_out.push(dv[k as int]) + obj_remove(dv.skip(k as int + 1), key@));
            }
        }
        proof {
            lemma_dview_obj(out@);
        }
        k += 1;
    }
    proof {
        assert(dv.skip(dv.len() as int) =~= Seq::<(Seq<char>, SpecValue)>::empty());
        assert(obj_remove(Seq::<(Seq<char>, SpecValue)>::empty(), key@)
            =~= Seq::<(Seq<char>, SpecValue)>::empty());
        assert(dview_obj(out@) + Seq::<(Seq<char>, SpecValue)>::empty() =~= dview_obj(out@));
    }
    out
}

/// The fields with the first binding of `key` replaced by `v`.
fn update_first_exec(fields: &Vec<(String, Value)>, key: &str, v: Value) -> (r: Vec<
    (String, Value),
>)
    ensures
        dview_obj(r@) == obj_update_first(dview_obj(fields@), key@, v.dview()),
{
    let ghost dv = dview_obj(fields@);
    let ghost vv = v.dview();
    proof {
        lemma_dview_obj(fields@);
        assert(dv.skip(0) =~= dv);
        assert(Seq::<(Seq<char>, SpecValue)>::empty() + obj_update_first(dv, key@, vv)
            =~= obj_update_first(dv, key@, vv));
    }
    let mut out: Vec<(String, Value)> = Vec::new();
    let mut pending: Option<Value> = Some(v);
    let mut k: usize = 0;
    while k < fields.len()
        invariant
            k <= fields@.len(),
            dv == dview_obj(fields@),
            dv.len() == fields@.len(),
            forall|i: int|
                0 <= i < fields@.len() ==> dv[i] == (fields@[i].0@, fields@[i].1.dview()),
            dview_obj(out@).len() == out@.len(),
            forall|i: int|
                0 <= i < out@.len() ==> dview_obj(out@)[i] == (out@[i].0@, out@[i].1.dview()),
            match &pending {
                Some(p) => p.dview() == vv && obj_update_first(dv, key@, vv) == dview_obj(out@)
                    + obj_update_first(dv.skip(k as int), key@, vv),
                None => obj_update_first(dv, key@, vv) == dview_obj(out@) + dv.skip(k as int),
            },
        decreases fields@.len() - k,
    {
        assert(dv.skip(k as int)[0] == dv[k as int]);
        let ghost old_out = dview_obj(out@);
        let is_match = str_eq(fields[k].0.as_str(), key);
        let mut took: Option<Value> = None;
        if is_match {
            took = pending;
            pending = None;
        }
        match took {
            Some(p) => {
                // First match: emit the replacement.
                let keyc = fields[k].0.clone();
                out.push((keyc, p));
                proof {
                    lemma_dview_obj(out@);
                    assert(dview_obj(out@) =~= old_out.push((dv[k as int].0, vv)));
                    assert(dv[k as int].0 == key@);
                    assert(obj_update_first(dv.skip(k as int), key@, vv) == dv.skip(
                        k as int,
                    ).update(0, (key@, vv)));
                    assert(dv.skip(k as int).update(0, (key@, vv)) =~= seq![(key@, vv)] + dv.skip(
                        k as int + 1,
                    ));
                    assert(old_out + (seq![(key@, vv)] + dv.skip(k as int + 1)) =~= old_out.push(
                        (key@, vv),
                    ) + dv.skip(k as int + 1));
                }
            },
            None => {
                let keyc = fields[k].0.clone();
                let copy = fields[k].1.duplicate();
                out.push((keyc, copy));
                proof {
                    lemma_dview_obj(out@);
                    assert(dview_obj(out@) =~= old_out.push(dv[k as int]));
                    if pending is Some {
                        assert(!is_match);
                        assert(obj_update_first(dv.skip(k as int), key@, vv) == seq![
                            dv[k as int],
                        ] + obj_update_first(dv.skip(k as int).skip(1), key@, vv));
                        assert(dv.skip(k as int).skip(1) =~= dv.skip(k as int + 1));
                        assert(old_out + (seq![dv[k as int]] + obj_update_first(
                            dv.skip(k as int + 1),
                            key@,
                            vv,
                        )) =~= old_out.push(dv[k as int]) + obj_update_first(
                            dv.skip(k as int + 1),
                            key@,
                            vv,
                        ));
                    } else {
                        assert(dv.skip(k as int) =~= seq![dv[k as int]] + dv.skip(k as int + 1));
                        assert(old_out + (seq![dv[k as int]] + dv.skip(k as int + 1))
                            =~= old_out.push(dv[k as int]) + dv.skip(k as int + 1));
                    }
                }
            },
        }
        k += 1;
    }
    proof {
        assert(dv.skip(dv.len() as int) =~= Seq::<(Seq<char>, SpecValue)>::empty());
        match &pending {
            Some(_) => {
                assert(obj_update_first(
                    Seq::<(Seq<char>, SpecValue)>::empty(),
                    key@,
                    vv,
                ) =~= Seq::<(Seq<char>, SpecValue)>::empty());
            },
            None => {},
        }
        assert(dview_obj(out@) + Seq::<(Seq<char>, SpecValue)>::empty() =~= dview_obj(out@));
    }
    out
}

/// The title sub-rule.
fn title_edit_exec(fields: &Vec<(String, Value)>, cfg: &TransformConfig) -> (r: Vec<
    (String, Value),
>)
    ensures
        dview_obj(r@) == spec_title_edit(dview_obj(fields@), cfg.deep_view()),
        match spec_title_target(dview_obj(fields@), cfg.deep_view()) {
            Some(s) => upper_of(upper_of(s)) == upper_of(s),
            None => true,
        },
{
    if !cfg.normalize_title {
        return clone_fields(fields);
    }
    match fields_get(fields, "user_title") {
        None => clone_fields(fields),
        Some(t) => {
            if t.get("desc").is_none() {
                remove_field_exec(fields, "user_title")
            } else {
                match t.get("value") {
                    Some(v) => match v.as_str() {
                        Some(s) => {
                            let upper = upper_str(s.as_str());
                            proof {
                                assert(spec_title_target(dview_obj(fields@), cfg.deep_view())
                                    == Some(s@));
                                assert(upper_of(upper_of(s@)) == upper_of(s@));
                            }
                            let newt = set_title_value(t, upper);
                            update_first_exec(fields, "user_title", newt)
                        },
                        None => clone_fields(fields),
                    },
                    None => clone_fields(fields),
                }
            }
        },
    }
}

/// A title object with its `value` replaced.
fn set_title_value(t: &Value, s: String) -> (r: Value)
    ensures
        r.dview() == obj_set_value(t.dview(), s@),
{
    match t {
        Value::Obj(tf) => Value::Obj(update_first_exec(tf, "value", Value::Str(s))),
        _ => t.duplicate(),
    }
}

/// Whether a role parameter stays.
fn keep_param_exec(p: &Value) -> (r: bool)
    ensures
        r == keep_param(p.dview()),
{
    let is_sentinel = match p.get("value") {
        Some(inner) => match inner.get("value") {
            Some(v) => match v.as_str() {
                Some(s) => str_eq(s.as_str(), "DEFAULT_CIRC_DESK"),
                None => false,
            },
            None => false,
        },
        None => false,
    };
    let is_empty_desc = match p.get("value") {
        Some(inner) => match inner.get("desc") {
            Some(v) => match v.as_str() {
                Some(s) => str_eq(s.as_str(), ""),
                None => false,
            },
            None => false,
        },
        None => false,
    };
    proof {
        assert(Seq::<char>::empty() =~= ""@) by {
            reveal_strlit("");
        }
    }
    !(is_sentinel || is_empty_desc)
}

/// One role with its parameter list pruned.
fn prune_role_exec(role: &Value) -> (r: Value)
    ensures
        r.dview() == spec_prune_role(role.dview()),
{
    match role {
        Value::Obj(rf) => {
            proof {
                lemma_dview_obj(rf@);
            }
            match fields_get(rf, "parameter") {
                Some(pv) => match pv {
                    Value::Arr(params) => {
                        let ghost pdv = dview_arr(params@);
                        let ghost pred = |p: SpecValue| keep_param(p);
                        proof {
                            lemma_dview_arr(params@);
                            assert(pdv.take(0) =~= Seq::<SpecValue>::empty());
                            assert(Seq::<SpecValue>::empty().filter(pred)
                                =~= Seq::<SpecValue>::empty()) by {
                                reveal(Seq::filter);
                            }
                        }
                        let mut kept: Vec<Value> = Vec::new();
                        let n: usize = params.len();
                        let mut i: usize = 0;
                        while i < n
                            invariant
                                i <= n,
                                n == params@.len(),
                                pdv == dview_arr(params@),
                                pdv.len() == n,
                                pred == (|p: SpecValue| keep_param(p)),
                                forall|j: int| 0 <= j < n ==> pdv[j] == params@[j].dview(),
                                dview_arr(kept@) == pdv.take(i as int).filter(pred),
                            decreases n - i,
                        {
                            let ghost old_kseq = kept@;
                            let ghost old_kept = dview_arr(kept@);
                            let keep = keep_param_exec(&params[i]);
                            if keep {
                                let copy = params[i].duplicate();
                                kept.push(copy);
                            }
                            proof {
                                lemma_dview_arr(old_kseq);
                                lemma_dview_arr(kept@);
                                assert(pdv.take(i as int + 1) =~= pdv.take(i as int) + seq![
                                    pdv[i as int],
                                ]);
                                lemma_filter_one(pdv.take(i as int), pdv[i as int], pred);
                                if keep {
                                    assert(dview_arr(kept@) =~= old_kept.push(pdv[i as int]));
                                }
                            }
                            i += 1;
                        }
                        proof {
                            assert(pdv.take(n as int) =~= pdv);
                        }
                        Value::Obj(update_first_exec(rf, "parameter", Value::Arr(kept)))
                    },
                    _ => role.duplicate(),
                },
                None => role.duplicate(),
            }
        },
        _ => role.duplicate(),
    }
}

/// The role sub-rule.
fn role_edit_exec(fields: &Vec<(String, Value)>, cfg: &TransformConfig) -> (r: Vec<
    (String, Value),
>)
    ensures
        dview_obj(r@) == spec_role_edit(dview_obj(fields@), cfg.deep_view()),
{
    if !cfg.prune_role_parameters {
        return clone_fields(fields);
    }
    match fields_get(fields, "user_role") {
        Some(rv) => match rv {
            Value::Arr(roles) => {
                let ghost rdv = dview_arr(roles@);
                let ghost mapped = rdv.map_values(|r: SpecValue| spec_prune_role(r));
                proof {
                    lemma_dview_arr(roles@);
                }
                let mut out: Vec<Value> = Vec::new();
                let n: usize = roles.len();
                let mut i: usize = 0;
                while i < n
                    invariant
                        i <= n,
                        n == roles@.len(),
                        rdv == dview_arr(roles@),
                        rdv.len() == n,
                        forall|j: int| 0 <= j < n ==> rdv[j] == roles@[j].dview(),
                        out@.len() == i,
                        forall|j: int|
                            0 <= j < i ==> out@[j].dview() == spec_prune_role(rdv[j]),
                    decreases n - i,
                {
                    let pruned = prune_role_exec(&roles[i]);
                    out.push(pruned);
                    i += 1;
                }
                proof {
                    lemma_dview_arr(out@);
                    assert(dview_arr(out@) =~= mapped);
                }
                update_first_exec(fields, "user_role", Value::Arr(out))
            },
            _ => clone_fields(fields),
        },
        None => clone_fields(fields),
    }
}

/// Decide the outcome: the edited document is returned exactly when it
/// differs from the record's fields, and is itself a fixed point of the
/// rule.
fn decide_outcome(
    fields: &Vec<(String, Value)>,
    edited: Vec<(String, Value)>,
    config: &TransformConfig,
) -> (r: Transformed)
    requires
        dview_obj(edited@) == spec_edit(dview_obj(fields@), config.deep_view()),
        match spec_title_target(dview_obj(fields@), config.deep_view()) {
            Some(s) => upper_of(upper_of(s)) == upper_of(s),
            None => true,
        },
    ensures
        match r {
            Transformed::Unchanged => spec_transform(
                SpecValue::Obj(dview_obj(fields@)),
                config.deep_view(),
            ) is None,
            Transformed::Changed(v) => spec_transform(
                SpecValue::Obj(dview_obj(fields@)),
                config.deep_view(),
            ) == Some(v.dview()) && spec_transform(v.dview(), config.deep_view()) is None,
        },
{
    if crate::document::fields_equal(fields, &edited) {
        Transformed::Unchanged
    } else {
        proof {
            lemma_edit_idempotent(dview_obj(fields@), config.deep_view());
        }
        Transformed::Changed(Value::Obj(edited))
    }
}

/// Apply the rule to a record: decide whether it changed, return the edited
/// document when it did, and report what was observed.
#[verifier::rlimit(80)]
pub fn transform_record(record: &Value, config: &TransformConfig) -> (r: (
    Transformed,
    Vec<TransformNote>,
))
    ensures
        match r.0 {
            Transformed::Unchanged => spec_transform(record.dview(), config.deep_view()) is None,
            Transformed::Changed(v) => spec_transform(record.dview(), config.deep_view())
                == Some(v.dview()) && spec_transform(v.dview(), config.deep_view()) is None,
        },
        r.1.deep_view() == spec_notes(record.dview(), config.deep_view()),
{
    let ghost cfgv = config.deep_view();
    match record {
        Value::Obj(fields) => {
            let ghost dv = dview_obj(fields@);
            proof {
                lemma_dview_obj(fields@);
                assert(record.dview() == SpecValue::Obj(dv));
            }
            let mut notes: Vec<TransformNote> = Vec::new();
            if config.normalize_title {
                let no_desc = match fields_get(fields, "user_title") {
                    None => true,
                    Some(t) => t.get("desc").is_none(),
                };
                if no_desc {
                    notes.push(TransformNote::TitleWithoutDescription);
                }
            }
            let ghost title_seq = if title_note(dv, cfgv) {
                seq![SpecNote::TitleWithoutDescription]
            } else {
                Seq::<SpecNote>::empty()
            };
            proof {
                assert(notes.deep_view() =~= title_seq);
            }
            let group = group_of_exec(record);
            match fields_get(fields, "user_statistic") {
                Some(sv) => match sv {
                    Value::Arr(stats) => {
                        let ghost sdv = dview_arr(stats@);
                        let ghost pred = |s: SpecValue| keep_stat(cfgv, group@, s);
                        proof {
                            lemma_dview_arr(stats@);
                            assert(sdv.take(0) =~= Seq::<SpecValue>::empty());
                            assert(Seq::<SpecValue>::empty().filter(pred)
                                =~= Seq::<SpecValue>::empty()) by {
                                reveal(Seq::filter);
                            }
                            assert(spec_lookup(dv, "user_statistic"@) == Some(
                                SpecValue::Arr(sdv),
                            ));
                        }
                        let mut kept: Vec<Value> = Vec::new();
                        let n: usize = stats.len();
                        let mut i: usize = 0;
                        while i < n
                            invariant
                                i <= n,
                                n == stats@.len(),
                                sdv == dview_arr(stats@),
                                sdv.len() == n,
                                cfgv == config.deep_view(),
                                record.dview() == SpecValue::Obj(dv),
                                dv == dview_obj(fields@),
                                spec_lookup(dv, "user_statistic"@) == Some(SpecValue::Arr(sdv)),
                                title_seq == (if title_note(dv, cfgv) {
                                    seq![SpecNote::TitleWithoutDescription]
                                } else {
                                    Seq::<SpecNote>::empty()
                                }),
                                group@ == group_of(record.dview()),
                                pred == (|s: SpecValue| keep_stat(cfgv, group@, s)),
                                forall|j: int| 0 <= j < n ==> sdv[j] == stats@[j].dview(),
                                dview_arr(kept@) == sdv.take(i as int).filter(pred),
                                notes.deep_view() + internal_notes(cfgv, group@, sdv, i as int)
                                    == title_seq + internal_notes(cfgv, group@, sdv, 0),
                            decreases n - i,
                        {
                            let ghost old_kseq = kept@;
                            let ghost old_kept = dview_arr(kept@);
                            let ghost old_notes = notes.deep_view();
                            let internal_drop = stat_is_internal(&stats[i]) && contains_str(
                                &config.external_groups,
                                group.as_str(),
                            );
                            if internal_drop {
                                notes.push(TransformNote::InternalStatistic { index: i });
                                proof {
                                    assert(notes.deep_view() =~= old_notes.push(
                                        SpecNote::InternalStatistic { index: i as int },
                                    ));
                                    assert(internal_notes(cfgv, group@, sdv, i as int) == seq![
                                        SpecNote::InternalStatistic { index: i as int },
                                    ] + internal_notes(cfgv, group@, sdv, i as int + 1));
                                    assert(old_notes + (seq![
                                        SpecNote::InternalStatistic { index: i as int },
                                    ] + internal_notes(cfgv, group@, sdv, i as int + 1))
                                        =~= notes.deep_view() + internal_notes(
                                        cfgv,
                                        group@,
                                        sdv,
                                        i as int + 1,
                                    ));
                                }
                            } else {
                                proof {
                                    assert(internal_notes(cfgv, group@, sdv, i as int)
                                        == internal_notes(cfgv, group@, sdv, i as int + 1));
                                }
                            }
                            let keep = keep_stat_exec(config, group.as_str(), &stats[i]);
                            if keep {
                                let copy = stats[i].duplicate();
                                kept.push(copy);
                            }
                            proof {
                                lemma_dview_arr(old_kseq);
                                lemma_dview_arr(kept@);
                                assert(sdv.take(i as int + 1) =~= sdv.take(i as int) + seq![
                                    sdv[i as int],
                                ]);
                                lemma_filter_one(sdv.take(i as int), sdv[i as int], pred);
                                if keep {
                                    assert(dview_arr(kept@) =~= old_kept.push(sdv[i as int]));
                                }
                            }
                            i += 1;
                        }
                        proof {
                            assert(sdv.take(n as int) =~= sdv);
                            assert(internal_notes(cfgv, group@, sdv, n as int)
                                =~= Seq::<SpecNote>::empty());
                            assert(notes.deep_view() + Seq::<SpecNote>::empty()
                                =~= notes.deep_view());
                            assert(notes.deep_view() == spec_notes(record.dview(), cfgv));
                        }
                        let f1 = title_edit_exec(fields, config);
                        let f2 = role_edit_exec(&f1, config);
                        let f3 = update_first_exec(&f2, "user_statistic", Value::Arr(kept));
                        proof {
                            reveal_strlit("user_title");
                            reveal_strlit("user_role");
                            reveal_strlit("user_statistic");
                            assert("user_statistic"@.len() == 14);
                            assert("user_title"@.len() == 10);
                            assert("user_role"@.len() == 9);
                            lemma_edits_preserve(dv, cfgv, "user_statistic"@);
                            assert(spec_lookup(dview_obj(f2@), "user_statistic"@) == Some(
                                SpecValue::Arr(sdv),
                            ));
                            assert(dview_arr(kept@) == sdv.filter(pred));
                            assert(spec_stats_edit(dview_obj(f2@), cfgv, group@) == dview_obj(
                                f3@,
                            ));
                            assert(group_of(SpecValue::Obj(dv)) == group@);
                            assert(dview_obj(f3@) == spec_edit(dv, cfgv));
                        }
                        (decide_outcome(fields, f3, config), notes)
                    },
                    _ => {
                        let f1 = title_edit_exec(fields, config);
                        let f2 = role_edit_exec(&f1, config);
                        proof {
                            reveal_strlit("user_title");
                            reveal_strlit("user_role");
                            reveal_strlit("user_statistic");
                            assert("user_statistic"@.len() == 14);
                            assert("user_title"@.len() == 10);
                            assert("user_role"@.len() == 9);
                            lemma_edits_preserve(dv, cfgv, "user_statistic"@);
                            assert(!(sv.dview() is Arr));
                            assert(spec_stats_edit(dview_obj(f2@), cfgv, group_of(record.dview()))
                                == dview_obj(f2@));
                            assert(group_of(SpecValue::Obj(dv)) == group_of(record.dview()));
                            assert(dview_obj(f2@) == spec_edit(dv, cfgv));
                            assert(notes.deep_view() == spec_notes(record.dview(), cfgv));
                        }
                        (decide_outcome(fields, f2, config), notes)
                    },
                },
                None => {
                    let f1 = title_edit_exec(fields, config);
                    let f2 = role_edit_exec(&f1, config);
                    proof {
                        reveal_strlit("user_title");
                        reveal_strlit("user_role");
                        reveal_strlit("user_statistic");
                        assert("user_statistic"@.len() == 14);
                        assert("user_title"@.len() == 10);
                        assert("user_role"@.len() == 9);
                        lemma_edits_preserve(dv, cfgv, "user_statistic"@);
                        assert(spec_stats_edit(dview_obj(f2@), cfgv, group_of(record.dview()))
                            == dview_obj(f2@));
                        assert(group_of(SpecValue::Obj(dv)) == group_of(record.dview()));
                        assert(dview_obj(f2@) == spec_edit(dv, cfgv));
                        assert(notes.deep_view() == spec_notes(record.dview(), cfgv));
                    }
                    (decide_outcome(fields, f2, config), notes)
                },
            }
        },
        _ => {
            let notes: Vec<TransformNote> = Vec::new();
            proof {
                assert(notes.deep_view() =~= Seq::<SpecNote>::empty());
            }
            (Transformed::Unchanged, notes)
        },
    }
}

} // verus!
