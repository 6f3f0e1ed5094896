//! JSON values as the library holds them: null, booleans, numbers,
//! strings, arrays and objects whose entries keep their order.

use vstd::prelude::*;
use crate::text::string_chars;
use crate::version::chars_are;

verus! {

/// A JSON number. Integers are held exactly (`UInt` for values above
/// `i64::MAX`); a float is held as the text of its shortest round-trip
/// rendering (`0.1`, `1`, `-0`, `1e300`).
#[derive(Debug, Clone, PartialEq, Eq)]
pub enum JsonNumber {
    Int(i64),
    UInt(u64),
    Float(String),
}

/// A JSON value.
#[derive(Debug)]
pub enum JsonValue {
    Null,
    Bool(bool),
    Number(JsonNumber),
    String(String),
    Array(Vec<JsonValue>),
    Object(JsonMap),
}

/// A JSON object: entries in order.
#[derive(Debug)]
pub struct JsonMap {
    pub entries: Vec<(String, JsonValue)>,
}

/// The mathematical content of a JSON value.
pub ghost enum Json {
    Null,
    Bool(bool),
    Integer(int),
    Float(Seq<char>),
    Str(Seq<char>),
    Array(Seq<Json>),
    Object(Seq<(Seq<char>, Json)>),
}

pub open spec fn number_model(n: JsonNumber) -> Json {
    match n {
        JsonNumber::Int(i) => Json::Integer(i as int),
        JsonNumber::UInt(u) => Json::Integer(u as int),
        JsonNumber::Float(t) => Json::Float(t@),
    }
}

impl JsonValue {
    pub open spec fn model(self) -> Json
        decreases self,
    {
        match self {
            JsonValue::Null => Json::Null,
            JsonValue::Bool(b) => Json::Bool(b),
            JsonValue::Number(n) => number_model(n),
            JsonValue::String(s) => Json::Str(s@),
            JsonValue::Array(items) => Json::Array(values_model(items@)),
            JsonValue::Object(m) => Json::Object(entries_model(m.entries@)),
        }
    }
}

impl JsonMap {
    pub open spec fn model(self) -> Seq<(Seq<char>, Json)> {
        entries_model(self.entries@)
    }

    /// Every key occurs once, in this object and in every object inside it,
    /// as in any JSON object.
    pub open spec fn wf(self) -> bool {
        well_formed(Json::Object(self.model()))
    }
}

impl JsonValue {
    /// Every object inside has distinct keys.
    pub open spec fn wf(self) -> bool {
        well_formed(self.model())
    }
}

pub open spec fn values_model(s: Seq<JsonValue>) -> Seq<Json>
    decreases s,
{
    if s.len() == 0 {
        seq![]
    } else {
        values_model(s.drop_last()).push(s.last().model())
    }
}

pub open spec fn entries_model(s: Seq<(String, JsonValue)>) -> Seq<(Seq<char>, Json)>
    decreases s,
{
    if s.len() == 0 {
        seq![]
    } else {
        proof {
            assert(decreases_to!(s => s[s.len() - 1]));
        }
        entries_model(s.drop_last()).push((s.last().0@, s.last().1.model()))
    }
}

pub proof fn lemma_values_model(s: Seq<JsonValue>)
    ensures
        values_model(s).len() == s.len(),
        forall|i: int| 0 <= i < s.len() ==> #[trigger] values_model(s)[i] == s[i].model(),
    decreases s.len(),
{
    if s.len() > 0 {
        lemma_values_model(s.drop_last());
        assert forall|i: int| 0 <= i < s.len() implies #[trigger] values_model(s)[i] == s[i].model() by {
            if i < s.len() - 1 {
                assert(s.drop_last()[i] == s[i]);
            }
        }
    }
}

pub proof fn lemma_entries_model(s: Seq<(String, JsonValue)>)
    ensures
        entries_model(s).len() == s.len(),
        forall|i: int| 0 <= i < s.len() ==> #[trigger] entries_model(s)[i] == (s[i].0@, s[i].1.model()),
    decreases s.len(),
{
    if s.len() > 0 {
        lemma_entries_model(s.drop_last());
        assert forall|i: int| 0 <= i < s.len() implies #[trigger] entries_model(s)[i] == (s[i].0@, s[i].1.model()) by {
            if i < s.len() - 1 {
                assert(s.drop_last()[i] == s[i]);
            }
        }
    }
}

// ---- lookup ---------------------------------------------------------------

/// Index of the first entry with key `k` at or after `i` (the length when
/// there is none).
pub open spec fn key_index_from(es: Seq<(Seq<char>, Json)>, k: Seq<char>, i: int) -> int
    decreases es.len() - i,
{
    if i < 0 || i >= es.len() {
        es.len() as int
    } else if es[i].0 == k {
        i
    } else {
        key_index_from(es, k, i + 1)
    }
}

pub open spec fn key_index(es: Seq<(Seq<char>, Json)>, k: Seq<char>) -> int {
    key_index_from(es, k, 0)
}

/// The value of the first entry with key `k`.
pub open spec fn lookup(es: Seq<(Seq<char>, Json)>, k: Seq<char>) -> Option<Json> {
    let i = key_index(es, k);
    if i < es.len() {
        Some(es[i].1)
    } else {
        None
    }
}

pub proof fn lemma_key_index_from(es: Seq<(Seq<char>, Json)>, k: Seq<char>, i: int)
    requires
        0 <= i <= es.len(),
    ensures
        i <= key_index_from(es, k, i) <= es.len(),
        key_index_from(es, k, i) < es.len() ==> es[key_index_from(es, k, i)].0 == k,
        forall|j: int| i <= j < key_index_from(es, k, i) ==> es[j].0 != k,
    decreases es.len() - i,
{
    if i < es.len() && es[i].0 != k {
        lemma_key_index_from(es, k, i + 1);
    }
}

/// `key_index` is the first index holding `k`.
pub proof fn lemma_key_index(es: Seq<(Seq<char>, Json)>, k: Seq<char>)
    ensures
        0 <= key_index(es, k) <= es.len(),
        key_index(es, k) < es.len() ==> es[key_index(es, k)].0 == k,
        forall|j: int| 0 <= j < key_index(es, k) ==> es[j].0 != k,
{
    lemma_key_index_from(es, k, 0);
}

/// Every key occurs once.
pub open spec fn distinct_keys(es: Seq<(Seq<char>, Json)>) -> bool {
    forall|i: int, j: int| 0 <= i < j < es.len() ==> es[i].0 != es[j].0
}

pub proof fn lemma_key_index_distinct(es: Seq<(Seq<char>, Json)>, i: int)
    requires
        distinct_keys(es),
        0 <= i < es.len(),
    ensures
        key_index(es, es[i].0) == i,
{
    lemma_key_index(es, es[i].0);
    let j = key_index(es, es[i].0);
    if j < i {
        assert(es[j].0 == es[i].0);
    }
}

// ---- equality ---------------------------------------------------------------

pub open spec fn is_zero_text(t: Seq<char>) -> bool {
    t == "0"@ || t == "-0"@
}

/// Two float renderings denote equal floats: the same text, or both zero
/// (`0.0 == -0.0`).
pub open spec fn float_eq(x: Seq<char>, y: Seq<char>) -> bool {
    x == y || (is_zero_text(x) && is_zero_text(y))
}

/// JSON value equality: scalars by value, arrays member by member,
/// objects as key/value sets (same size, and each entry of `a` found in
/// `b` under its key with an equal value; key order is ignored).
pub open spec fn deep_eq(a: Json, b: Json) -> bool
    decreases a,
{
    match a {
        Json::Null => b == Json::Null,
        Json::Bool(x) => b == Json::Bool(x),
        Json::Integer(x) => b == Json::Integer(x),
        Json::Float(x) => match b {
            Json::Float(y) => float_eq(x, y),
            _ => false,
        },
        Json::Str(x) => b == Json::Str(x),
        Json::Array(xs) => match b {
            Json::Array(ys) => xs.len() == ys.len() && items_eq(xs, ys),
            _ => false,
        },
        Json::Object(xs) => match b {
            Json::Object(ys) => xs.len() == ys.len() && entries_in(xs, ys),
            _ => false,
        },
    }
}

/// Each member of `xs` equals the member of `ys` at the same index.
pub open spec fn items_eq(xs: Seq<Json>, ys: Seq<Json>) -> bool
    decreases xs,
{
    if xs.len() == 0 {
        true
    } else {
        items_eq(xs.drop_last(), ys) && deep_eq(xs.last(), ys[xs.len() - 1])
    }
}

/// Each entry of `xs` is found in `ys` under its key with an equal value.
pub open spec fn entries_in(xs: Seq<(Seq<char>, Json)>, ys: Seq<(Seq<char>, Json)>) -> bool
    decreases xs,
{
    if xs.len() == 0 {
        true
    } else {
        proof {
            assert(decreases_to!(xs => xs[xs.len() - 1]));
        }
        entries_in(xs.drop_last(), ys) && match lookup(ys, xs.last().0) {
            Some(w) => deep_eq(xs.last().1, w),
            None => false,
        }
    }
}

pub proof fn lemma_items_eq(xs: Seq<Json>, ys: Seq<Json>)
    ensures
        items_eq(xs, ys) <==> forall|i: int| 0 <= i < xs.len() ==> #[trigger] deep_eq(xs[i], ys[i]),
    decreases xs.len(),
{
    if xs.len() > 0 {
        lemma_items_eq(xs.drop_last(), ys);
        if items_eq(xs, ys) {
            assert forall|i: int| 0 <= i < xs.len() implies #[trigger] deep_eq(xs[i], ys[i]) by {
                if i < xs.len() - 1 {
                    assert(xs.drop_last()[i] == xs[i]);
                }
            }
        }
        if forall|i: int| 0 <= i < xs.len() ==> #[trigger] deep_eq(xs[i], ys[i]) {
            assert forall|i: int| 0 <= i < xs.drop_last().len() implies #[trigger] deep_eq(xs.drop_last()[i], ys[i]) by {
                assert(xs.drop_last()[i] == xs[i]);
            }
            assert(deep_eq(xs[xs.len() - 1], ys[xs.len() - 1]));
        }
    }
}

/// The property `entries_in` asks of one entry.
pub open spec fn entry_found(e: (Seq<char>, Json), ys: Seq<(Seq<char>, Json)>) -> bool {
    match lookup(ys, e.0) {
        Some(w) => deep_eq(e.1, w),
        None => false,
    }
}

pub proof fn lemma_entries_in(xs: Seq<(Seq<char>, Json)>, ys: Seq<(Seq<char>, Json)>)
    ensures
        entries_in(xs, ys) <==> forall|i: int| 0 <= i < xs.len() ==> #[trigger] entry_found(xs[i], ys),
    decreases xs.len(),
{
    if xs.len() > 0 {
        lemma_entries_in(xs.drop_last(), ys);
        if entries_in(xs, ys) {
            assert forall|i: int| 0 <= i < xs.len() implies #[trigger] entry_found(xs[i], ys) by {
                if i < xs.len() - 1 {
                    assert(xs.drop_last()[i] == xs[i]);
                }
            }
        }
        if forall|i: int| 0 <= i < xs.len() ==> #[trigger] entry_found(xs[i], ys) {
            assert forall|i: int| 0 <= i < xs.drop_last().len() implies #[trigger] entry_found(xs.drop_last()[i], ys) by {
                assert(xs.drop_last()[i] == xs[i]);
            }
            assert(entry_found(xs[xs.len() - 1], ys));
        }
    }
}

/// Equality is transitive.
pub proof fn lemma_deep_eq_trans(a: Json, b: Json, c: Json)
    requires
        deep_eq(a, b),
        deep_eq(b, c),
    ensures
        deep_eq(a, c),
    decreases a,
{
    match a {
        Json::Array(xs) => {
            let ys = b->Array_0;
            let zs = c->Array_0;
            lemma_items_eq(xs, ys);
            lemma_items_eq(ys, zs);
            assert forall|i: int| 0 <= i < xs.len() implies #[trigger] deep_eq(xs[i], zs[i]) by {
                assert(deep_eq(xs[i], ys[i]));
                assert(deep_eq(ys[i], zs[i]));
                lemma_deep_eq_trans(xs[i], ys[i], zs[i]);
            }
            lemma_items_eq(xs, zs);
        },
        Json::Object(xs) => {
            let ys = b->Object_0;
            let zs = c->Object_0;
            lemma_entries_in(xs, ys);
            lemma_entries_in(ys, zs);
            assert forall|i: int| 0 <= i < xs.len() implies #[trigger] entry_found(xs[i], zs) by {
                assert(entry_found(xs[i], ys));
                lemma_key_index(ys, xs[i].0);
                let j = key_index(ys, xs[i].0);
                assert(entry_found(ys[j], zs));
                let w = ys[j].1;
                let u = lookup(zs, xs[i].0)->Some_0;
                assert(decreases_to!(a => xs[i].1)) by {
                    assert(decreases_to!(a => xs));
                    assert(decreases_to!(xs => xs[i]));
                }
                lemma_deep_eq_trans(xs[i].1, w, u);
            }
            lemma_entries_in(xs, zs);
        },
        _ => {},
    }
}

/// Every object, at any depth, has distinct keys.
pub open spec fn well_formed(j: Json) -> bool
    decreases j,
{
    match j {
        Json::Array(xs) => all_well_formed(xs),
        Json::Object(es) => distinct_keys(es) && entries_well_formed(es),
        _ => true,
    }
}

pub open spec fn all_well_formed(xs: Seq<Json>) -> bool
    decreases xs,
{
    if xs.len() == 0 {
        true
    } else {
        all_well_formed(xs.drop_last()) && well_formed(xs.last())
    }
}

pub open spec fn entries_well_formed(es: Seq<(Seq<char>, Json)>) -> bool
    decreases es,
{
    if es.len() == 0 {
        true
    } else {
        proof {
            assert(decreases_to!(es => es[es.len() - 1]));
        }
        entries_well_formed(es.drop_last()) && well_formed(es.last().1)
    }
}

pub proof fn lemma_all_well_formed(xs: Seq<Json>)
    ensures
        all_well_formed(xs) <==> forall|i: int| 0 <= i < xs.len() ==> #[trigger] well_formed(xs[i]),
    decreases xs.len(),
{
    if xs.len() > 0 {
        lemma_all_well_formed(xs.drop_last());
        if forall|i: int| 0 <= i < xs.len() ==> #[trigger] well_formed(xs[i]) {
            assert forall|i: int| 0 <= i < xs.drop_last().len() implies #[trigger] well_formed(xs.drop_last()[i]) by {
                assert(xs.drop_last()[i] == xs[i]);
            }
            assert(well_formed(xs[xs.len() - 1]));
        }
        if all_well_formed(xs) {
            assert forall|i: int| 0 <= i < xs.len() implies #[trigger] well_formed(xs[i]) by {
                if i < xs.len() - 1 {
                    assert(xs.drop_last()[i] == xs[i]);
                }
            }
        }
    }
}

pub proof fn lemma_entries_well_formed(es: Seq<(Seq<char>, Json)>)
    ensures
        entries_well_formed(es) <==> forall|i: int| 0 <= i < es.len() ==> #[trigger] well_formed(es[i].1),
    decreases es.len(),
{
    if es.len() > 0 {
        lemma_entries_well_formed(es.drop_last());
        if forall|i: int| 0 <= i < es.len() ==> #[trigger] well_formed(es[i].1) {
            assert forall|i: int| 0 <= i < es.drop_last().len() implies #[trigger] well_formed(es.drop_last()[i].1) by {
                assert(es.drop_last()[i] == es[i]);
            }
            assert(well_formed(es[es.len() - 1].1));
        }
        if entries_well_formed(es) {
            assert forall|i: int| 0 <= i < es.len() implies #[trigger] well_formed(es[i].1) by {
                if i < es.len() - 1 {
                    assert(es.drop_last()[i] == es[i]);
                }
            }
        }
    }
}

/// Equality is reflexive on well-formed values.
pub proof fn lemma_deep_eq_refl(a: Json)
    requires
        well_formed(a),
    ensures
        deep_eq(a, a),
    decreases a,
{
    match a {
        Json::Array(xs) => {
            lemma_all_well_formed(xs);
            assert forall|i: int| 0 <= i < xs.len() implies #[trigger] deep_eq(xs[i], xs[i]) by {
                lemma_deep_eq_refl(xs[i]);
            }
            lemma_items_eq(xs, xs);
        },
        Json::Object(es) => {
            lemma_entries_well_formed(es);
            assert forall|i: int| 0 <= i < es.len() implies #[trigger] entry_found(es[i], es) by {
                lemma_key_index_distinct(es, i);
                assert(decreases_to!(a => es[i].1)) by {
                    assert(decreases_to!(a => es));
                    assert(decreases_to!(es => es[i]));
                }
                lemma_deep_eq_refl(es[i].1);
            }
            lemma_entries_in(es, es);
        },
        _ => {},
    }
}

// ---- executable equality and copies ---------------------------------------------

fn is_zero_text_exec(t: &String) -> (r: bool)
    ensures
        r == is_zero_text(t@),
{
    let cs = string_chars(t);
    chars_are(&cs, "0") || chars_are(&cs, "-0")
}

impl JsonNumber {
    /// Number equality: integers by value, floats as floats.
    pub fn equals(&self, other: &JsonNumber) -> (r: bool)
        ensures
            r == deep_eq(number_model(*self), number_model(*other)),
    {
        match (self, other) {
            (JsonNumber::Int(x), JsonNumber::Int(y)) => *x == *y,
            (JsonNumber::Int(x), JsonNumber::UInt(y)) => *x >= 0 && (*x as u64) == *y,
            (JsonNumber::UInt(x), JsonNumber::Int(y)) => *y >= 0 && *x == (*y as u64),
            (JsonNumber::UInt(x), JsonNumber::UInt(y)) => *x == *y,
            (JsonNumber::Float(x), JsonNumber::Float(y)) => *x == *y || (is_zero_text_exec(x)
                && is_zero_text_exec(y)),
            _ => false,
        }
    }
}

/// Index of the first entry whose key is `k` (the length when none is).
pub fn find_key(es: &Vec<(String, JsonValue)>, k: &String) -> (r: usize)
    ensures
        r as int == key_index(entries_model(es@), k@),
        r <= es.len(),
{
    proof {
        lemma_entries_model(es@);
    }
    let ghost m = entries_model(es@);
    let mut i: usize = 0;
    while i < es.len() && !(es[i].0 == *k)
        invariant
            i <= es.len(),
            m == entries_model(es@),
            m.len() == es.len(),
            forall|j: int| 0 <= j < es.len() ==> #[trigger] m[j] == (es@[j].0@, es@[j].1.model()),
            key_index(m, k@) == key_index_from(m, k@, i as int),
        decreases es.len() - i,
    {
        i += 1;
    }
    i
}

impl JsonValue {
    /// JSON equality (`deep_eq`): objects compare as key/value sets.
    pub fn equals(&self, other: &JsonValue) -> (r: bool)
        ensures
            r == deep_eq(self.model(), other.model()),
        decreases self,
    {
        match (self, other) {
            (JsonValue::Null, JsonValue::Null) => true,
            (JsonValue::Bool(x), JsonValue::Bool(y)) => *x == *y,
            (JsonValue::Number(x), JsonValue::Number(y)) => x.equals(y),
            (JsonValue::String(x), JsonValue::String(y)) => *x == *y,
            (JsonValue::Array(xs), JsonValue::Array(ys)) => {
                proof {
                    lemma_values_model(xs@);
                    lemma_values_model(ys@);
                }
                if xs.len() != ys.len() {
                    return false;
                }
                let ghost xm = values_model(xs@);
                let ghost ym = values_model(ys@);
                let mut k: usize = 0;
                while k < xs.len()
                    invariant
                        k <= xs.len() == ys.len(),
                        self == JsonValue::Array(*xs),
                        other == JsonValue::Array(*ys),
                        xm == values_model(xs@),
                        ym == values_model(ys@),
                        xm.len() == xs.len() && ym.len() == ys.len(),
                        forall|i: int| 0 <= i < xs.len() ==> #[trigger] xm[i] == xs@[i].model(),
                        forall|i: int| 0 <= i < ys.len() ==> #[trigger] ym[i] == ys@[i].model(),
                        items_eq(xm.take(k as int), ym),
                    decreases xs.len() - k,
                {
                    assert(xm.take(k + 1).drop_last() =~= xm.take(k as int));
                    if !xs[k].equals(&ys[k]) {
                        proof {
                            lemma_items_eq(xm, ym);
                            assert(!deep_eq(xm[k as int], ym[k as int]));
                        }
                        return false;
                    }
                    k += 1;
                }
                assert(xm.take(xs.len() as int) =~= xm);
                true
            },
            (JsonValue::Object(xm), JsonValue::Object(ym)) => xm.equals(ym),
            _ => false,
        }
    }

    /// A copy with the same content.
    pub fn duplicate(&self) -> (r: JsonValue)
        ensures
            r.model() == self.model(),
        decreases self,
    {
        match self {
            JsonValue::Null => JsonValue::Null,
            JsonValue::Bool(b) => JsonValue::Bool(*b),
            JsonValue::Number(n) => JsonValue::Number(
                match n {
                    JsonNumber::Int(i) => JsonNumber::Int(*i),
                    JsonNumber::UInt(u) => JsonNumber::UInt(*u),
                    JsonNumber::Float(t) => JsonNumber::Float(t.clone()),
                },
            ),
            JsonValue::String(s) => JsonValue::String(s.clone()),
            JsonValue::Array(xs) => {
                proof {
                    lemma_values_model(xs@);
                }
                let mut out: Vec<JsonValue> = Vec::new();
                let mut k: usize = 0;
                while k < xs.len()
                    invariant
                        k <= xs.len(),
                        self == JsonValue::Array(*xs),
                        xs.len() == xs@.len(),
                        values_model(xs@).len() == xs.len(),
                        forall|i: int| 0 <= i < xs.len() ==> #[trigger] values_model(xs@)[i] == xs@[i].model(),
                        values_model(out@) == values_model(xs@).take(k as int),
                    decreases xs.len() - k,
                {
                    proof {
                        assert(*self == JsonValue::Array(*xs));
                        assert(decreases_to!(*self => self->Array_0));
                        assert(decreases_to!(self->Array_0 => self->Array_0@));
                        assert(decreases_to!(self->Array_0@ => self->Array_0@[k as int]));
                    }
                    let c = xs[k].duplicate();
                    let ghost before = out@;
                    out.push(c);
                    assert(out@.drop_last() =~= before);
                    assert(values_model(xs@).take(k + 1) =~= values_model(xs@).take(k as int).push(xs@[k as int].model()));
                    k += 1;
                }
                assert(values_model(xs@).take(xs.len() as int) =~= values_model(xs@));
                JsonValue::Array(out)
            },
            JsonValue::Object(m) => JsonValue::Object(m.duplicate()),
        }
    }
}

impl JsonMap {
    /// An empty object.
    pub fn new() -> (r: JsonMap)
        ensures
            r.model() == Seq::<(Seq<char>, Json)>::empty(),
            r.wf(),
    {
        let r = JsonMap { entries: Vec::new() };
        assert(r.model() =~= Seq::<(Seq<char>, Json)>::empty());
        r
    }

    /// Object equality: the same number of entries, and each entry of
    /// `self` found in `other` under its key with an equal value.
    pub fn equals(&self, other: &JsonMap) -> (r: bool)
        ensures
            r == deep_eq(Json::Object(self.model()), Json::Object(other.model())),
        decreases self,
    {
        let xs = &self.entries;
        let ys = &other.entries;
        proof {
            lemma_entries_model(xs@);
            lemma_entries_model(ys@);
        }
        let ghost xm = entries_model(xs@);
        let ghost ym = entries_model(ys@);
        if xs.len() != ys.len() {
            return false;
        }
        let mut k: usize = 0;
        while k < xs.len()
            invariant
                k <= xs.len(),
                xs == &self.entries,
                ys == &other.entries,
                xm == entries_model(xs@),
                ym == entries_model(ys@),
                xm.len() == xs.len() && ym.len() == ys.len(),
                forall|i: int| 0 <= i < xs.len() ==> #[trigger] xm[i] == (xs@[i].0@, xs@[i].1.model()),
                forall|i: int| 0 <= i < ys.len() ==> #[trigger] ym[i] == (ys@[i].0@, ys@[i].1.model()),
                entries_in(xm.take(k as int), ym),
            decreases xs.len() - k,
        {
            assert(xm.take(k + 1).drop_last() =~= xm.take(k as int));
            assert(xm.take(k + 1).last() == xm[k as int]);
            let j = find_key(ys, &xs[k].0);
            if j >= ys.len() {
                proof {
                    lemma_entries_in(xm, ym);
                    assert(!entry_found(xm[k as int], ym));
                }
                return false;
            }
            assert(decreases_to!(self => xs@[k as int].1)) by {
                assert(decreases_to!(self => self.entries));
                assert(decreases_to!(self.entries => self.entries@));
                assert(decreases_to!(self.entries@ => self.entries@[k as int]));
            }
            if !xs[k].1.equals(&ys[j].1) {
                proof {
                    lemma_entries_in(xm, ym);
                    assert(!entry_found(xm[k as int], ym));
                }
                return false;
            }
            k += 1;
        }
        assert(xm.take(xs.len() as int) =~= xm);
        true
    }

    /// A copy with the same entries.
    pub fn duplicate(&self) -> (r: JsonMap)
        ensures
            r.model() == self.model(),
        decreases self,
    {
        let es = &self.entries;
        proof {
            lemma_entries_model(es@);
        }
        let mut out: Vec<(String, JsonValue)> = Vec::new();
        let mut k: usize = 0;
        while k < es.len()
            invariant
                k <= es.len(),
                es == &self.entries,
                entries_model(es@).len() == es.len(),
                forall|i: int| 0 <= i < es.len() ==> #[trigger] entries_model(es@)[i] == (es@[i].0@, es@[i].1.model()),
                entries_model(out@) == entries_model(es@).take(k as int),
            decreases es.len() - k,
        {
            assert(decreases_to!(self => es@[k as int].1)) by {
                assert(decreases_to!(self => self.entries));
                assert(decreases_to!(self.entries => self.entries@));
                assert(decreases_to!(self.entries@ => self.entries@[k as int]));
            }
            let v = es[k].1.duplicate();
            let key = es[k].0.clone();
            let ghost before = out@;
            out.push((key, v));
            assert(out@.drop_last() =~= before);
            assert(entries_model(es@).take(k + 1) =~= entries_model(es@).take(k as int).push((es@[k as int].0@, es@[k as int].1.model())));
            k += 1;
        }
        assert(entries_model(es@).take(es.len() as int) =~= entries_model(es@));
        JsonMap { entries: out }
    }
}

// ---- object updates ----------------------------------------------------------

/// Inserting `k`: an existing entry keeps its place and takes the new
/// value; a new key goes last.
pub open spec fn map_insert(es: Seq<(Seq<char>, Json)>, k: Seq<char>, v: Json) -> Seq<(Seq<char>, Json)> {
    let i = key_index(es, k);
    if i < es.len() {
        es.update(i, (k, v))
    } else {
        es.push((k, v))
    }
}

/// Removing `k`: the last entry takes the removed entry's place.
pub open spec fn map_remove(es: Seq<(Seq<char>, Json)>, k: Seq<char>) -> Seq<(Seq<char>, Json)> {
    let i = key_index(es, k);
    if i < es.len() {
        es.update(i, es.last()).drop_last()
    } else {
        es
    }
}

impl JsonMap {
    /// The value under `k`.
    pub fn get(&self, k: &String) -> (r: Option<&JsonValue>)
        ensures
            match r {
                Some(v) => lookup(self.model(), k@) == Some(v.model()),
                None => lookup(self.model(), k@) is None,
            },
    {
        proof {
            lemma_entries_model(self.entries@);
        }
        let i = find_key(&self.entries, k);
        if i < self.entries.len() {
            Some(&self.entries[i].1)
        } else {
            None
        }
    }

    pub fn contains_key(&self, k: &String) -> (r: bool)
        ensures
            r == (lookup(self.model(), k@) is Some),
    {
        proof {
            lemma_entries_model(self.entries@);
        }
        let i = find_key(&self.entries, k);
        i < self.entries.len()
    }

    /// Set the value under `k`, in place when `k` is present.
    pub fn insert(&mut self, k: String, v: JsonValue)
        ensures
            final(self).model() == map_insert(old(self).model(), k@, v.model()),
            old(self).wf() && v.wf() ==> final(self).wf(),
    {
        proof {
            if self.wf() && v.wf() {
                lemma_map_insert_wf(self.model(), k@, v.model());
            }
        }
        proof {
            lemma_entries_model(self.entries@);
        }
        let ghost m0 = self.model();
        let ghost e = (k@, v.model());
        let i = find_key(&self.entries, &k);
        if i < self.entries.len() {
            self.entries.set(i, (k, v));
            proof {
                lemma_entries_model(self.entries@);
                assert(self.model() =~= m0.update(i as int, e));
            }
        } else {
            self.entries.push((k, v));
            proof {
                lemma_entries_model(self.entries@);
                assert(self.model() =~= m0.push(e));
            }
        }
    }

    /// Remove the entry under `k`, moving the last entry into its place.
    pub fn remove(&mut self, k: &String)
        ensures
            final(self).model() == map_remove(old(self).model(), k@),
            old(self).wf() ==> final(self).wf(),
    {
        proof {
            if self.wf() {
                lemma_map_remove_wf(self.model(), k@);
            }
        }
        proof {
            lemma_entries_model(self.entries@);
        }
        let ghost m0 = self.model();
        let i = find_key(&self.entries, k);
        if i < self.entries.len() {
            let _ = self.entries.swap_remove(i);
            proof {
                lemma_entries_model(self.entries@);
                assert(self.model() =~= m0.update(i as int, m0.last()).drop_last());
            }
        }
    }
}

// ---- facts about lookups ------------------------------------------------------

/// With distinct keys, the entry at `j` is what its key looks up.
pub proof fn lemma_lookup_at(es: Seq<(Seq<char>, Json)>, j: int)
    requires
        distinct_keys(es),
        0 <= j < es.len(),
    ensures
        lookup(es, es[j].0) == Some(es[j].1),
{
    lemma_key_index_distinct(es, j);
}

/// A key that no entry holds looks up nothing.
pub proof fn lemma_lookup_none(es: Seq<(Seq<char>, Json)>, k: Seq<char>)
    requires
        forall|j: int| 0 <= j < es.len() ==> (#[trigger] es[j]).0 != k,
    ensures
        lookup(es, k) is None,
{
    lemma_key_index(es, k);
}

/// A key that looks something up is held by an entry.
pub proof fn lemma_lookup_some(es: Seq<(Seq<char>, Json)>, k: Seq<char>)
    requires
        lookup(es, k) is Some,
    ensures
        0 <= key_index(es, k) < es.len(),
        es[key_index(es, k)].0 == k,
        lookup(es, k) == Some(es[key_index(es, k)].1),
{
    lemma_key_index(es, k);
}

/// Inserting into an object with distinct keys keeps them distinct, sets
/// `k`, and leaves every other key as it was.
pub proof fn lemma_map_insert(es: Seq<(Seq<char>, Json)>, k: Seq<char>, v: Json)
    requires
        distinct_keys(es),
    ensures
        distinct_keys(map_insert(es, k, v)),
        lookup(map_insert(es, k, v), k) == Some(v),
        forall|k2: Seq<char>| k2 != k ==> #[trigger] lookup(map_insert(es, k, v), k2) == lookup(es, k2),
{
    lemma_key_index(es, k);
    let i = key_index(es, k);
    let r = map_insert(es, k, v);
    if i < es.len() {
        assert(forall|j: int| 0 <= j < es.len() ==> (#[trigger] r[j]).0 == es[j].0);
        assert(distinct_keys(r));
        lemma_lookup_at(r, i);
    } else {
        assert(forall|j: int| 0 <= j < es.len() ==> (#[trigger] r[j]) == es[j]);
        assert(distinct_keys(r));
        lemma_lookup_at(r, es.len() as int);
    }
    assert forall|k2: Seq<char>| k2 != k implies #[trigger] lookup(r, k2) == lookup(es, k2) by {
        if exists|j: int| 0 <= j < es.len() && es[j].0 == k2 {
            let j = choose|j: int| 0 <= j < es.len() && es[j].0 == k2;
            lemma_lookup_at(es, j);
            assert(r[j] == es[j]);
            lemma_lookup_at(r, j);
        } else {
            lemma_lookup_none(es, k2);
            assert forall|j: int| 0 <= j < r.len() implies (#[trigger] r[j]).0 != k2 by {
                if j < es.len() {
                    assert(r[j].0 == es[j].0);
                }
            }
            lemma_lookup_none(r, k2);
        }
    }
}

/// Removing from an object with distinct keys keeps them distinct, drops
/// `k`, and leaves every other key as it was.
pub proof fn lemma_map_remove(es: Seq<(Seq<char>, Json)>, k: Seq<char>)
    requires
        distinct_keys(es),
    ensures
        distinct_keys(map_remove(es, k)),
        lookup(map_remove(es, k), k) is None,
        forall|k2: Seq<char>| k2 != k ==> #[trigger] lookup(map_remove(es, k), k2) == lookup(es, k2),
{
    lemma_key_index(es, k);
    let i = key_index(es, k);
    let r = map_remove(es, k);
    if i < es.len() {
        let n = es.len() - 1;
        assert(r.len() == n);
        assert(forall|j: int| 0 <= j < n && j != i ==> (#[trigger] r[j]) == es[j]);
        assert(i < n ==> r[i] == es[n]);
        assert(distinct_keys(r)) by {
            assert forall|a: int, b: int| 0 <= a < b < r.len() implies r[a].0 != r[b].0 by {
                let ea = if a == i {
                    n
                } else {
                    a
                };
                let eb = if b == i {
                    n
                } else {
                    b
                };
                assert(r[a] == es[ea]);
                assert(r[b] == es[eb]);
                assert(ea != eb);
            }
        }
        assert forall|j: int| 0 <= j < r.len() implies (#[trigger] r[j]).0 != k by {
            if j == i {
                assert(r[j] == es[n]);
                assert(es[n].0 != es[i].0);
            } else {
                assert(r[j] == es[j]);
                assert(es[j].0 != es[i].0);
            }
        }
        lemma_lookup_none(r, k);
        assert forall|k2: Seq<char>| k2 != k implies #[trigger] lookup(r, k2) == lookup(es, k2) by {
            if exists|j: int| 0 <= j < es.len() && es[j].0 == k2 {
                let j = choose|j: int| 0 <= j < es.len() && es[j].0 == k2;
                lemma_lookup_at(es, j);
                assert(j != i);
                let at = if j == n {
                    i
                } else {
                    j
                };
                assert(r[at] == es[j]);
                lemma_lookup_at(r, at);
            } else {
                lemma_lookup_none(es, k2);
                assert forall|j: int| 0 <= j < r.len() implies (#[trigger] r[j]).0 != k2 by {
                    if j == i {
                        assert(r[j] == es[n]);
                    } else {
                        assert(r[j] == es[j]);
                    }
                }
                lemma_lookup_none(r, k2);
            }
        }
    } else {
        lemma_lookup_none(es, k);
    }
}

/// Two objects with distinct keys that hold the same keys have the same
/// number of entries.
pub proof fn lemma_same_keys_same_len(a: Seq<(Seq<char>, Json)>, b: Seq<(Seq<char>, Json)>)
    requires
        distinct_keys(a),
        distinct_keys(b),
        forall|k: Seq<char>| (#[trigger] lookup(a, k) is Some) <==> (lookup(b, k) is Some),
    ensures
        a.len() == b.len(),
{
    let ka = a.map_values(|e: (Seq<char>, Json)| e.0);
    let kb = b.map_values(|e: (Seq<char>, Json)| e.0);
    assert(ka.no_duplicates()) by {
        assert forall|i: int, j: int| 0 <= i < ka.len() && 0 <= j < ka.len() && i != j implies ka[i] != ka[j] by {
            if i < j {
                assert(a[i].0 != a[j].0);
            } else {
                assert(a[j].0 != a[i].0);
            }
        }
    }
    assert(kb.no_duplicates()) by {
        assert forall|i: int, j: int| 0 <= i < kb.len() && 0 <= j < kb.len() && i != j implies kb[i] != kb[j] by {
            if i < j {
                assert(b[i].0 != b[j].0);
            } else {
                assert(b[j].0 != b[i].0);
            }
        }
    }
    assert(ka.to_set() =~= kb.to_set()) by {
        assert forall|k: Seq<char>| ka.to_set().contains(k) implies kb.to_set().contains(k) by {
            let i = choose|i: int| 0 <= i < ka.len() && ka[i] == k;
            lemma_lookup_at(a, i);
            assert(lookup(a, k) is Some);
            lemma_lookup_some(b, k);
            assert(kb[key_index(b, k)] == k);
        }
        assert forall|k: Seq<char>| kb.to_set().contains(k) implies ka.to_set().contains(k) by {
            let i = choose|i: int| 0 <= i < kb.len() && kb[i] == k;
            lemma_lookup_at(b, i);
            assert(lookup(b, k) is Some);
            lemma_lookup_some(a, k);
            assert(ka[key_index(a, k)] == k);
        }
    }
    ka.unique_seq_to_set();
    kb.unique_seq_to_set();
}

/// Inserting a well-formed value keeps an object well formed.
pub proof fn lemma_map_insert_wf(es: Seq<(Seq<char>, Json)>, k: Seq<char>, v: Json)
    requires
        well_formed(Json::Object(es)),
        well_formed(v),
    ensures
        well_formed(Json::Object(map_insert(es, k, v))),
{
    lemma_map_insert(es, k, v);
    lemma_entries_well_formed(es);
    lemma_key_index(es, k);
    let i0 = key_index(es, k);
    let r = map_insert(es, k, v);
    assert forall|i: int| 0 <= i < r.len() implies #[trigger] well_formed(r[i].1) by {
        if (i0 < es.len() && i == i0) || i == es.len() {
            assert(r[i] == (k, v));
        } else {
            assert(r[i] == es[i]);
            assert(well_formed(es[i].1));
        }
    }
    lemma_entries_well_formed(r);
}

/// Removing a key keeps an object well formed.
pub proof fn lemma_map_remove_wf(es: Seq<(Seq<char>, Json)>, k: Seq<char>)
    requires
        well_formed(Json::Object(es)),
    ensures
        well_formed(Json::Object(map_remove(es, k))),
{
    lemma_map_remove(es, k);
    lemma_entries_well_formed(es);
    lemma_key_index(es, k);
    let r = map_remove(es, k);
    let i0 = key_index(es, k);
    assert forall|i: int| 0 <= i < r.len() implies #[trigger] well_formed(r[i].1) by {
        if i0 < es.len() && i == i0 {
            assert(r[i] == es[es.len() - 1]);
            assert(well_formed(es[es.len() - 1].1));
        } else {
            assert(r[i] == es[i]);
            assert(well_formed(es[i].1));
        }
    }
    lemma_entries_well_formed(r);
}

} // verus!
