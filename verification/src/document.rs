//! A schema-free structured-document value: the shape of a record as the
//! registry serves it.  Numbers keep their textual form, so any document can
//! pass through the client unchanged.  Object fields keep their order;
//! lookup finds the first binding of a key.

use vstd::prelude::*;

use crate::text::str_eq;

verus! {

/// One structured-document value.
#[derive(Debug)]
pub enum Value {
    Null,
    Bool(bool),
    /// A number, kept exactly as its textual form.
    Num(String),
    Str(String),
    Arr(Vec<Value>),
    Obj(Vec<(String, Value)>),
}

/// `Value`, at the specification level.
pub enum SpecValue {
    Null,
    Bool(bool),
    Num(Seq<char>),
    Str(Seq<char>),
    Arr(Seq<SpecValue>),
    Obj(Seq<(Seq<char>, SpecValue)>),
}

impl Value {
    pub open spec fn dview(&self) -> SpecValue
        decreases self, 1int,
    {
        match self {
            Value::Null => SpecValue::Null,
            Value::Bool(b) => SpecValue::Bool(*b),
            Value::Num(s) => SpecValue::Num(s@),
            Value::Str(s) => SpecValue::Str(s@),
            Value::Arr(items) => SpecValue::Arr(dview_arr(items@)),
            Value::Obj(fields) => SpecValue::Obj(dview_obj(fields@)),
        }
    }
}

pub open spec fn dview_arr(s: Seq<Value>) -> Seq<SpecValue>
    decreases s, 0int,
{
    if s.len() == 0 {
        Seq::empty()
    } else {
        dview_arr(s.drop_last()).push(s.last().dview())
    }
}

pub open spec fn dview_obj(s: Seq<(String, Value)>) -> Seq<(Seq<char>, SpecValue)>
    decreases s, 0int,
{
    if s.len() == 0 {
        Seq::empty()
    } else {
        dview_obj(s.drop_last()).push((s.last().0@, s.last().1.dview()))
    }
}

impl DeepView for Value {
    type V = SpecValue;

    open spec fn deep_view(&self) -> SpecValue {
        self.dview()
    }
}

/// `dview_arr` is the element-wise view.
pub proof fn lemma_dview_arr(s: Seq<Value>)
    ensures
        dview_arr(s).len() == s.len(),
        forall|i: int| 0 <= i < s.len() ==> dview_arr(s)[i] == s[i].dview(),
    decreases s.len(),
{
    if s.len() > 0 {
        lemma_dview_arr(s.drop_last());
    }
}

/// `dview_obj` is the pair-wise view.
pub proof fn lemma_dview_obj(s: Seq<(String, Value)>)
    ensures
        dview_obj(s).len() == s.len(),
        forall|i: int|
            0 <= i < s.len() ==> dview_obj(s)[i] == (s[i].0@, s[i].1.dview()),
    decreases s.len(),
{
    if s.len() > 0 {
        lemma_dview_obj(s.drop_last());
    }
}

/// First binding of `key` among object fields.
pub open spec fn spec_lookup(fields: Seq<(Seq<char>, SpecValue)>, key: Seq<char>) -> Option<
    SpecValue,
>
    decreases fields.len(),
{
    if fields.len() == 0 {
        None
    } else if fields[0].0 == key {
        Some(fields[0].1)
    } else {
        spec_lookup(fields.skip(1), key)
    }
}

/// Field lookup on a value: a binding only on objects.
pub open spec fn spec_get(v: SpecValue, key: Seq<char>) -> Option<SpecValue> {
    match v {
        SpecValue::Obj(fields) => spec_lookup(fields, key),
        _ => None,
    }
}

impl Value {
    /// The value of the first field named `key`, if this is an object that
    /// has one.
    pub fn get<'a>(&'a self, key: &str) -> (r: Option<&'a Value>)
        ensures
            match r {
                Some(f) => spec_get(self.dview(), key@) == Some(f.dview()),
                None => spec_get(self.dview(), key@) is None,
            },
    {
        match self {
            Value::Obj(fields) => {
                let ghost dv = dview_obj(fields@);
                proof {
                    lemma_dview_obj(fields@);
                    assert(dv.skip(0) =~= dv);
                    assert(self.dview() == SpecValue::Obj(dv));
                }
                let mut k: usize = 0;
                while k < fields.len()
                    invariant
                        k <= fields@.len(),
                        dv == dview_obj(fields@),
                        self.dview() == SpecValue::Obj(dv),
                        dv.len() == fields@.len(),
                        forall|i: int|
                            0 <= i < fields@.len() ==> dv[i] == (
                                fields@[i].0@,
                                fields@[i].1.dview(),
                            ),
                        spec_lookup(dv.skip(k as int), key@) == spec_lookup(dv, key@),
                    decreases fields@.len() - k,
                {
                    assert(dv.skip(k as int)[0] == dv[k as int]);
                    if str_eq(fields[k].0.as_str(), key) {
                        proof {
                            assert(dv.skip(k as int)[0].0 == key@);
                            assert(spec_lookup(dv.skip(k as int), key@) == Some(dv[k as int].1));
                            assert(self.dview() == SpecValue::Obj(dv));
                        }
                        return Some(&fields[k].1);
                    }
                    proof {
                        assert(dv.skip(k as int).skip(1) =~= dv.skip(k as int + 1));
                    }
                    k += 1;
                }
                assert(dv.skip(dv.len() as int) =~= Seq::<(Seq<char>, SpecValue)>::empty());
                None
            },
            _ => None,
        }
    }

    /// The text of a string value.
    pub fn as_str<'a>(&'a self) -> (r: Option<&'a String>)
        ensures
            match r {
                Some(s) => self.dview() == SpecValue::Str(s@),
                None => !(self.dview() is Str),
            },
    {
        match self {
            Value::Str(s) => Some(s),
            _ => None,
        }
    }
}

/// Structural height, the measure for recursion over values.
pub open spec fn spec_height(v: SpecValue) -> nat
    decreases v, 1int,
{
    match v {
        SpecValue::Arr(items) => 1 + spec_height_list(items),
        SpecValue::Obj(fields) => 1 + spec_height_fields(fields),
        _ => 0,
    }
}

pub open spec fn spec_height_list(items: Seq<SpecValue>) -> nat
    decreases items, 0int,
{
    if items.len() == 0 {
        0
    } else {
        let rest = spec_height_list(items.drop_last());
        let last = spec_height(items.last());
        if last > rest {
            last
        } else {
            rest
        }
    }
}

pub open spec fn spec_height_fields(fields: Seq<(Seq<char>, SpecValue)>) -> nat
    decreases fields, 0int,
{
    if fields.len() == 0 {
        0
    } else {
        let rest = spec_height_fields(fields.drop_last());
        let last = spec_height(fields.last().1);
        if last > rest {
            last
        } else {
            rest
        }
    }
}

/// Every element of a list sits strictly below the list's value.
pub proof fn lemma_height_list_elem(items: Seq<SpecValue>, i: int)
    requires
        0 <= i < items.len(),
    ensures
        spec_height(items[i]) <= spec_height_list(items),
    decreases items.len(),
{
    if i < items.len() - 1 {
        lemma_height_list_elem(items.drop_last(), i);
    }
}

pub proof fn lemma_height_fields_elem(fields: Seq<(Seq<char>, SpecValue)>, i: int)
    requires
        0 <= i < fields.len(),
    ensures
        spec_height(fields[i].1) <= spec_height_fields(fields),
    decreases fields.len(),
{
    if i < fields.len() - 1 {
        lemma_height_fields_elem(fields.drop_last(), i);
    }
}

/// Character-exact structural equality of two field lists.
pub fn fields_equal(a: &Vec<(String, Value)>, b: &Vec<(String, Value)>) -> (r: bool)
    ensures
        r == (dview_obj(a@) == dview_obj(b@)),
{
    proof {
        lemma_dview_obj(a@);
        lemma_dview_obj(b@);
    }
    if a.len() != b.len() {
        assert(dview_obj(a@).len() != dview_obj(b@).len());
        return false;
    }
    let n: usize = a.len();
    let mut i: usize = 0;
    while i < n
        invariant
            i <= n,
            n == a@.len(),
            n == b@.len(),
            dview_obj(a@).len() == n,
            dview_obj(b@).len() == n,
            forall|j: int| 0 <= j < n ==> dview_obj(a@)[j] == (a@[j].0@, a@[j].1.dview()),
            forall|j: int| 0 <= j < n ==> dview_obj(b@)[j] == (b@[j].0@, b@[j].1.dview()),
            forall|j: int| 0 <= j < i ==> dview_obj(a@)[j] == dview_obj(b@)[j],
        decreases n - i,
    {
        if !str_eq(a[i].0.as_str(), b[i].0.as_str()) {
            assert(dview_obj(a@)[i as int].0 != dview_obj(b@)[i as int].0);
            return false;
        }
        if !a[i].1.equal(&b[i].1) {
            assert(dview_obj(a@)[i as int].1 != dview_obj(b@)[i as int].1);
            return false;
        }
        i += 1;
    }
    assert(dview_obj(a@) =~= dview_obj(b@));
    true
}

/// The reporting text of a value: a string's own text; anything else, its
/// serialized form.
pub open spec fn display_of(v: SpecValue) -> Seq<char> {
    match v {
        SpecValue::Str(s) => s,
        _ => spec_dump(v),
    }
}

/// The escape for one character inside a dumped string: quote, backslash,
/// the named control escapes, and a four-digit escape for every other
/// control character; everything else stands verbatim.
pub open spec fn esc_char(c: char) -> Seq<char> {
    if c == '"' {
        seq!['\\', '"']
    } else if c == '\\' {
        seq!['\\', '\\']
    } else if c == '\n' {
        seq!['\\', 'n']
    } else if c == '\r' {
        seq!['\\', 'r']
    } else if c == '\t' {
        seq!['\\', 't']
    } else if (c as int) < 32 {
        seq!['\\', 'u', '0', '0', crate::text::hex_char(c as int / 16), crate::text::hex_char(
            c as int % 16,
        )]
    } else {
        seq![c]
    }
}

pub open spec fn spec_escape(s: Seq<char>) -> Seq<char>
    decreases s.len(),
{
    if s.len() == 0 {
        Seq::empty()
    } else {
        spec_escape(s.drop_last()) + esc_char(s.last())
    }
}

/// The serialized text of a value.
pub open spec fn spec_dump(v: SpecValue) -> Seq<char>
    decreases v, 1int,
{
    match v {
        SpecValue::Null => "null"@,
        SpecValue::Bool(b) => if b {
            "true"@
        } else {
            "false"@
        },
        SpecValue::Num(s) => s,
        SpecValue::Str(s) => seq!['"'] + spec_escape(s) + seq!['"'],
        SpecValue::Arr(items) => seq!['['] + spec_dump_list(items) + seq![']'],
        SpecValue::Obj(fields) => seq!['{'] + spec_dump_fields(fields) + seq!['}'],
    }
}

pub open spec fn spec_dump_list(items: Seq<SpecValue>) -> Seq<char>
    decreases items, 0int,
{
    if items.len() == 0 {
        Seq::empty()
    } else if items.len() == 1 {
        spec_dump(items.last())
    } else {
        spec_dump_list(items.drop_last()) + seq![','] + spec_dump(items.last())
    }
}

pub open spec fn spec_dump_field(f: (Seq<char>, SpecValue)) -> Seq<char>
    decreases f, 1int,
{
    seq!['"'] + spec_escape(f.0) + seq!['"', ':'] + spec_dump(f.1)
}

pub open spec fn spec_dump_fields(fields: Seq<(Seq<char>, SpecValue)>) -> Seq<char>
    decreases fields, 0int,
{
    if fields.len() == 0 {
        Seq::empty()
    } else if fields.len() == 1 {
        spec_dump_field(fields.last())
    } else {
        spec_dump_fields(fields.drop_last()) + seq![','] + spec_dump_field(fields.last())
    }
}

/// Append the escaped form of `s`.
fn escape_into(s: &str, out: &mut String)
    ensures
        final(out)@ == old(out)@ + spec_escape(s@),
{
    let n: usize = s.unicode_len();
    let mut i: usize = 0;
    proof {
        assert(s@.take(0) =~= Seq::<char>::empty());
        assert(spec_escape(s@.take(0)) =~= Seq::<char>::empty());
        assert(old(out)@ + Seq::<char>::empty() =~= old(out)@);
    }
    while i < n
        invariant
            i <= n,
            n == s@.len(),
            out@ == old(out)@ + spec_escape(s@.take(i as int)),
        decreases n - i,
    {
        let c = s.get_char(i);
        match c {
            '"' => out.append("\\\""),
            '\\' => out.append("\\\\"),
            '\n' => out.append("\\n"),
            '\r' => out.append("\\r"),
            '\t' => out.append("\\t"),
            _ => {
                if (c as u32) < 32 {
                    out.append("\\u00");
                    let hi = ((c as u32) / 16) as u8;
                    let lo = ((c as u32) % 16) as u8;
                    let mut two: Vec<char> = Vec::new();
                    two.push(crate::text::hex_char_exec(hi));
                    two.push(crate::text::hex_char_exec(lo));
                    let cs = crate::text::chars_to_string(&two);
                    out.append(cs.as_str());
                    proof {
                        reveal_strlit("\\u00");
                        assert("\\u00"@ =~= seq!['\\', 'u', '0', '0']);
                        assert(cs@ =~= seq![
                            crate::text::hex_char(c as int / 16),
                            crate::text::hex_char(c as int % 16),
                        ]);
                    }
                } else {
                    let mut one: Vec<char> = Vec::new();
                    one.push(c);
                    let cs = crate::text::chars_to_string(&one);
                    out.append(cs.as_str());
                    assert(cs@ =~= seq![c]);
                }
            },
        }
        proof {
            reveal_strlit("\\\"");
            reveal_strlit("\\\\");
            reveal_strlit("\\n");
            reveal_strlit("\\r");
            reveal_strlit("\\t");
            assert(s@.take(i as int + 1).drop_last() =~= s@.take(i as int));
            assert(s@.take(i as int + 1).last() == s@[i as int]);
            assert(out@ =~= old(out)@ + spec_escape(s@.take(i as int + 1)));
        }
        i += 1;
    }
    proof {
        assert(s@.take(n as int) =~= s@);
    }
}

impl Value {
    /// Append the serialized text of this value.
    fn dump_into(&self, out: &mut String)
        ensures
            final(out)@ == old(out)@ + spec_dump(self.dview()),
        decreases spec_height(self.dview()),
    {
        match self {
            Value::Null => out.append("null"),
            Value::Bool(b) => {
                if *b {
                    out.append("true");
                } else {
                    out.append("false");
                }
            },
            Value::Num(s) => out.append(s.as_str()),
            Value::Str(s) => {
                out.append("\"");
                escape_into(s.as_str(), out);
                out.append("\"");
                proof {
                    reveal_strlit("\"");
                    assert("\""@ =~= seq!['"']);
                    assert(out@ =~= old(out)@ + spec_dump(self.dview()));
                }
            },
            Value::Arr(items) => {
                out.append("[");
                proof {
                    reveal_strlit("[");
                    reveal_strlit("]");
                    reveal_strlit(",");
                    lemma_dview_arr(items@);
                    assert(dview_arr(items@).take(0) =~= Seq::<SpecValue>::empty());
                    assert(out@ =~= old(out)@ + seq!['['] + spec_dump_list(
                        dview_arr(items@).take(0),
                    ));
                }
                let n: usize = items.len();
                let mut i: usize = 0;
                while i < n
                    invariant
                        i <= n,
                        n == items@.len(),
                        dview_arr(items@).len() == n,
                        forall|j: int|
                            0 <= j < n ==> dview_arr(items@)[j] == items@[j].dview(),
                        self.dview() == SpecValue::Arr(dview_arr(items@)),
                        out@ == old(out)@ + seq!['['] + spec_dump_list(
                            dview_arr(items@).take(i as int),
                        ),
                    decreases n - i,
                {
                    if i > 0 {
                        out.append(",");
                    }
                    proof {
                        lemma_dview_arr(items@);
                        lemma_height_list_elem(dview_arr(items@), i as int);
                    }
                    items[i].dump_into(out);
                    proof {
                        reveal_strlit(",");
                        let dv = dview_arr(items@);
                        assert(dv.take(i as int + 1).drop_last() =~= dv.take(i as int));
                        assert(dv.take(i as int + 1).last() == dv[i as int]);
                        assert(out@ =~= old(out)@ + seq!['['] + spec_dump_list(
                            dv.take(i as int + 1),
                        ));
                    }
                    i += 1;
                }
                out.append("]");
                proof {
                    reveal_strlit("]");
                    assert(dview_arr(items@).take(n as int) =~= dview_arr(items@));
                    assert(out@ =~= old(out)@ + spec_dump(self.dview()));
                }
            },
            Value::Obj(fields) => {
                out.append("{");
                proof {
                    reveal_strlit("{");
                    lemma_dview_obj(fields@);
                    assert(dview_obj(fields@).take(0) =~= Seq::<(Seq<char>, SpecValue)>::empty());
                    assert(out@ =~= old(out)@ + seq!['{'] + spec_dump_fields(
                        dview_obj(fields@).take(0),
                    ));
                }
                let n: usize = fields.len();
                let mut i: usize = 0;
                while i < n
                    invariant
                        i <= n,
                        n == fields@.len(),
                        dview_obj(fields@).len() == n,
                        forall|j: int|
                            0 <= j < n ==> dview_obj(fields@)[j] == (
                                fields@[j].0@,
                                fields@[j].1.dview(),
                            ),
                        self.dview() == SpecValue::Obj(dview_obj(fields@)),
                        out@ == old(out)@ + seq!['{'] + spec_dump_fields(
                            dview_obj(fields@).take(i as int),
                        ),
                    decreases n - i,
                {
                    if i > 0 {
                        out.append(",");
                    }
                    out.append("\"");
                    escape_into(fields[i].0.as_str(), out);
                    out.append("\":");
                    proof {
                        lemma_dview_obj(fields@);
                        lemma_height_fields_elem(dview_obj(fields@), i as int);
                    }
                    fields[i].1.dump_into(out);
                    proof {
                        reveal_strlit(",");
                        reveal_strlit("\"");
                        reveal_strlit("\":");
                        assert(","@ =~= seq![',']);
                        assert("\""@ =~= seq!['"']);
                        assert("\":"@ =~= seq!['"', ':']);
                        let dv = dview_obj(fields@);
                        let f = dv[i as int];
                        assert(dv.take(i as int + 1).drop_last() =~= dv.take(i as int));
                        assert(dv.take(i as int + 1).last() == dv[i as int]);
                        assert(spec_dump_field(f) == seq!['"'] + spec_escape(f.0) + seq!['"', ':']
                            + spec_dump(f.1));
                        assert(out@ =~= old(out)@ + seq!['{'] + spec_dump_fields(
                            dv.take(i as int + 1),
                        ));
                    }
                    i += 1;
                }
                out.append("}");
                proof {
                    reveal_strlit("}");
                    assert(dview_obj(fields@).take(n as int) =~= dview_obj(fields@));
                    assert(out@ =~= old(out)@ + spec_dump(self.dview()));
                }
            },
        }
        proof {
            reveal_strlit("null");
            reveal_strlit("true");
            reveal_strlit("false");
        }
    }

    /// An equal copy of this value.
    pub fn duplicate(&self) -> (r: Value)
        ensures
            r.dview() == self.dview(),
        decreases spec_height(self.dview()),
    {
        match self {
            Value::Null => Value::Null,
            Value::Bool(b) => Value::Bool(*b),
            Value::Num(s) => Value::Num(s.clone()),
            Value::Str(s) => Value::Str(s.clone()),
            Value::Arr(items) => {
                let mut out: Vec<Value> = Vec::new();
                let n: usize = items.len();
                let mut i: usize = 0;
                proof {
                    lemma_dview_arr(items@);
                }
                while i < n
                    invariant
                        i <= n,
                        n == items@.len(),
                        self.dview() == SpecValue::Arr(dview_arr(items@)),
                        dview_arr(items@).len() == n,
                        forall|j: int|
                            0 <= j < n ==> dview_arr(items@)[j] == items@[j].dview(),
                        out@.len() == i,
                        forall|j: int| 0 <= j < i ==> out@[j].dview() == items@[j].dview(),
                    decreases n - i,
                {
                    proof {
                        lemma_height_list_elem(dview_arr(items@), i as int);
                    }
                    let copy = items[i].duplicate();
                    out.push(copy);
                    i += 1;
                }
                proof {
                    lemma_dview_arr(out@);
                    assert(dview_arr(out@) =~= dview_arr(items@));
                }
                Value::Arr(out)
            },
            Value::Obj(fields) => {
                let mut out: Vec<(String, Value)> = Vec::new();
                let n: usize = fields.len();
                let mut i: usize = 0;
                proof {
                    lemma_dview_obj(fields@);
                }
                while i < n
                    invariant
                        i <= n,
                        n == fields@.len(),
                        self.dview() == SpecValue::Obj(dview_obj(fields@)),
                        dview_obj(fields@).len() == n,
                        forall|j: int|
                            0 <= j < n ==> dview_obj(fields@)[j] == (
                                fields@[j].0@,
                                fields@[j].1.dview(),
                            ),
                        out@.len() == i,
                        forall|j: int|
                            0 <= j < i ==> out@[j].0@ == fields@[j].0@ && out@[j].1.dview()
                                == fields@[j].1.dview(),
                    decreases n - i,
                {
                    proof {
                        lemma_height_fields_elem(dview_obj(fields@), i as int);
                    }
                    let key = fields[i].0.clone();
                    let copy = fields[i].1.duplicate();
                    out.push((key, copy));
                    i += 1;
                }
                proof {
                    lemma_dview_obj(out@);
                    assert(dview_obj(out@) =~= dview_obj(fields@));
                }
                Value::Obj(out)
            },
        }
    }

    /// Character-exact structural equality of two values.
    pub fn equal(&self, other: &Value) -> (r: bool)
        ensures
            r == (self.dview() == other.dview()),
        decreases spec_height(self.dview()),
    {
        match (self, other) {
            (Value::Null, Value::Null) => true,
            (Value::Bool(x), Value::Bool(y)) => x == y,
            (Value::Num(x), Value::Num(y)) => str_eq(x.as_str(), y.as_str()),
            (Value::Str(x), Value::Str(y)) => str_eq(x.as_str(), y.as_str()),
            (Value::Arr(xs), Value::Arr(ys)) => {
                proof {
                    lemma_dview_arr(xs@);
                    lemma_dview_arr(ys@);
                }
                if xs.len() != ys.len() {
                    assert(dview_arr(xs@).len() != dview_arr(ys@).len());
                    return false;
                }
                let n: usize = xs.len();
                let mut i: usize = 0;
                while i < n
                    invariant
                        i <= n,
                        n == xs@.len(),
                        n == ys@.len(),
                        self.dview() == SpecValue::Arr(dview_arr(xs@)),
                        other.dview() == SpecValue::Arr(dview_arr(ys@)),
                        dview_arr(xs@).len() == n,
                        dview_arr(ys@).len() == n,
                        forall|j: int| 0 <= j < n ==> dview_arr(xs@)[j] == xs@[j].dview(),
                        forall|j: int| 0 <= j < n ==> dview_arr(ys@)[j] == ys@[j].dview(),
                        forall|j: int| 0 <= j < i ==> dview_arr(xs@)[j] == dview_arr(ys@)[j],
                    decreases n - i,
                {
                    proof {
                        lemma_height_list_elem(dview_arr(xs@), i as int);
                    }
                    if !xs[i].equal(&ys[i]) {
                        assert(dview_arr(xs@)[i as int] != dview_arr(ys@)[i as int]);
                        return false;
                    }
                    i += 1;
                }
                assert(dview_arr(xs@) =~= dview_arr(ys@));
                true
            },
            (Value::Obj(xs), Value::Obj(ys)) => {
                proof {
                    lemma_dview_obj(xs@);
                    lemma_dview_obj(ys@);
                }
                if xs.len() != ys.len() {
                    assert(dview_obj(xs@).len() != dview_obj(ys@).len());
                    return false;
                }
                let n: usize = xs.len();
                let mut i: usize = 0;
                while i < n
                    invariant
                        i <= n,
                        n == xs@.len(),
                        n == ys@.len(),
                        self.dview() == SpecValue::Obj(dview_obj(xs@)),
                        other.dview() == SpecValue::Obj(dview_obj(ys@)),
                        dview_obj(xs@).len() == n,
                        dview_obj(ys@).len() == n,
                        forall|j: int|
                            0 <= j < n ==> dview_obj(xs@)[j] == (xs@[j].0@, xs@[j].1.dview()),
                        forall|j: int|
                            0 <= j < n ==> dview_obj(ys@)[j] == (ys@[j].0@, ys@[j].1.dview()),
                        forall|j: int| 0 <= j < i ==> dview_obj(xs@)[j] == dview_obj(ys@)[j],
                    decreases n - i,
                {
                    proof {
                        lemma_height_fields_elem(dview_obj(xs@), i as int);
                    }
                    if !str_eq(xs[i].0.as_str(), ys[i].0.as_str()) {
                        assert(dview_obj(xs@)[i as int].0 != dview_obj(ys@)[i as int].0);
                        return false;
                    }
                    if !xs[i].1.equal(&ys[i].1) {
                        assert(dview_obj(xs@)[i as int].1 != dview_obj(ys@)[i as int].1);
                        return false;
                    }
                    i += 1;
                }
                assert(dview_obj(xs@) =~= dview_obj(ys@));
                true
            },
            _ => {
                assert(self.dview() != other.dview());
                false
            },
        }
    }

    /// The reporting text of this value: a string's own text; anything
    /// else, its serialized form.
    pub fn display(&self) -> (r: String)
        ensures
            r@ == display_of(self.dview()),
    {
        match self {
            Value::Str(s) => s.clone(),
            _ => self.dump(),
        }
    }

    /// The serialized text of this value.
    pub fn dump(&self) -> (r: String)
        ensures
            r@ == spec_dump(self.dview()),
    {
        let mut out: String = String::new();
        self.dump_into(&mut out);
        proof {
            assert(Seq::<char>::empty() + spec_dump(self.dview()) =~= spec_dump(self.dview()));
        }
        out
    }
}

} // verus!
