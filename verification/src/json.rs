//! JSON values as plain data.
use vstd::prelude::*;
use vstd::string::*;

use crate::text;

verus! {

/// A binary64 number: `bits` is what `to_bits` gives for it.
#[derive(Clone, Copy, PartialEq, Eq, Hash, Debug, Structural)]
pub struct F64 {
    pub bits: u64,
}

impl F64 {
    /// The bits without the sign bit.
    pub open spec fn magnitude(self) -> u64 {
        self.bits % 0x8000_0000_0000_0000
    }

    pub open spec fn nan(self) -> bool {
        self.magnitude() > 0x7ff0_0000_0000_0000
    }

    /// The position of a number among all that are not NaN. The two zeros
    /// share a position, as they compare equal.
    pub open spec fn rank(self) -> int {
        if self.bits < 0x8000_0000_0000_0000 {
            self.bits as int
        } else {
            0x8000_0000_0000_0000 - self.bits
        }
    }

    /// The order of the numbers; a NaN is below nothing and above nothing.
    pub open spec fn below(self, other: F64) -> bool {
        !self.nan() && !other.nan() && self.rank() < other.rank()
    }

    pub fn is_nan(self) -> (r: bool)
        ensures
            r == self.nan(),
    {
        self.bits % 0x8000_0000_0000_0000 > 0x7ff0_0000_0000_0000
    }

    pub fn is_below(self, other: F64) -> (r: bool)
        ensures
            r == self.below(other),
    {
        if self.is_nan() || other.is_nan() {
            false
        } else if self.bits < 0x8000_0000_0000_0000 {
            other.bits < 0x8000_0000_0000_0000 && self.bits < other.bits
        } else if other.bits < 0x8000_0000_0000_0000 {
            self.bits != 0x8000_0000_0000_0000 || other.bits != 0
        } else {
            other.bits < self.bits
        }
    }
}

/// A JSON value. A number is held as the bits of the double that it was read as.
pub enum Json {
    Null,
    Bool(bool),
    Number(F64),
    Text(String),
    List(Vec<Json>),
    Object(Vec<(String, Json)>),
}

/// What a JSON value says.
pub enum JsonModel {
    Null,
    Bool(bool),
    Number(F64),
    Text(Seq<char>),
    List(Seq<JsonModel>),
    Object(Seq<(Seq<char>, JsonModel)>),
}

impl Json {
    pub open spec fn model(self) -> JsonModel
        decreases self,
    {
        match self {
            Json::Null => JsonModel::Null,
            Json::Bool(b) => JsonModel::Bool(b),
            Json::Number(n) => JsonModel::Number(n),
            Json::Text(s) => JsonModel::Text(s@),
            Json::List(v) => JsonModel::List(
                Seq::new(
                    v@.len(),
                    |i: int|
                        if 0 <= i < v@.len() {
                            v@[i].model()
                        } else {
                            JsonModel::Null
                        },
                ),
            ),
            Json::Object(v) => JsonModel::Object(
                Seq::new(
                    v@.len(),
                    |i: int|
                        if 0 <= i < v@.len() {
                            (v@[i].0@, v@[i].1.model())
                        } else {
                            (Seq::empty(), JsonModel::Null)
                        },
                ),
            ),
        }
    }
}

/// A JSON value of `serde_json`.
#[verifier::external_type_specification]
#[verifier::external_body]
pub struct ExValue(serde_json::Value);

/// An error of `serde_json`.
#[verifier::external_type_specification]
#[verifier::external_body]
pub struct ExJsonError(serde_json::Error);

/// What a value of `serde_json` holds: its kind and, by kind, the truth value,
/// the number as binary64, the text, the elements, or the keys with their
/// values in the order of the map.
pub uninterp spec fn json_content(v: serde_json::Value) -> JsonModel;

/// What a text reads as, if `serde_json::from_str` accepts it as a value.
pub uninterp spec fn json_of_text(t: Seq<char>) -> Option<JsonModel>;

/// `serde_json::from_str` into a `serde_json::Value`. Whether the text is
/// accepted, and what it reads as, depends on the text alone.
#[verifier::external_body]
fn read_value(t: &str) -> (r: Result<serde_json::Value, serde_json::Error>)
    ensures
        match r {
            Ok(v) => json_of_text(t@) == Some(json_content(v)),
            Err(_) => json_of_text(t@) is None,
        },
{
    serde_json::from_str(t)
}

/// A value of `serde_json` as plain data, variant by variant. A number is what
/// `Number::as_f64` gives of it, which is never nothing.
#[verifier::external_body]
fn plain(v: serde_json::Value) -> (r: Json)
    ensures
        r.model() == json_content(v),
{
    match v {
        serde_json::Value::Null => Json::Null,
        serde_json::Value::Bool(b) => Json::Bool(b),
        serde_json::Value::Number(n) => Json::Number(F64 { bits: n.as_f64().unwrap().to_bits() }),
        serde_json::Value::String(s) => Json::Text(s),
        serde_json::Value::Array(a) => Json::List(a.into_iter().map(plain).collect()),
        serde_json::Value::Object(m) => Json::Object(
            m.into_iter().map(|(k, x)| (k, plain(x))).collect(),
        ),
    }
}

/// Reads a JSON text.
pub fn parse_json(t: &str) -> (r: Option<Json>)
    ensures
        match r {
            Some(j) => json_of_text(t@) == Some(j.model()),
            None => json_of_text(t@) is None,
        },
{
    match read_value(t) {
        Ok(v) => Some(plain(v)),
        Err(_) => None,
    }
}

/// The place of a key among the pairs of an object; their number when it is
/// not there.
pub open spec fn key_place(s: Seq<(Seq<char>, JsonModel)>, key: Seq<char>) -> nat
    decreases s.len(),
{
    if s.len() == 0 || s[0].0 == key {
        0
    } else {
        1 + key_place(s.skip(1), key)
    }
}

impl JsonModel {
    /// What stands under a key; nothing when the value is no object or has no
    /// such key.
    pub open spec fn field(self, key: Seq<char>) -> Option<JsonModel> {
        match self {
            JsonModel::Object(s) => {
                let i = key_place(s, key) as int;
                if i < s.len() {
                    Some(s[i].1)
                } else {
                    None
                }
            },
            _ => None,
        }
    }
}

proof fn lemma_key_place(s: Seq<(Seq<char>, JsonModel)>, key: Seq<char>, n: nat)
    requires
        n <= s.len(),
        forall|i: int| 0 <= i < n ==> (#[trigger] s[i]).0 != key,
        n < s.len() ==> s[n as int].0 == key,
    ensures
        key_place(s, key) == n,
    decreases n,
{
    if n > 0 {
        let r = s.skip(1);
        assert(s[0].0 != key);
        assert forall|i: int| 0 <= i < n - 1 implies (#[trigger] r[i]).0 != key by {
            assert(r[i] == s[i + 1]);
        }
        lemma_key_place(r, key, (n - 1) as nat);
    }
}

impl Json {
    /// What stands under a key of an object.
    pub fn get(&self, key: &str) -> (r: Option<&Json>)
        ensures
            match r {
                Some(j) => self.model().field(key@) == Some(j.model()),
                None => self.model().field(key@) is None,
            },
    {
        match self {
            Json::Object(v) => {
                let ghost s = self.model()->Object_0;
                let mut i: usize = 0;
                while i < v.len()
                    invariant
                        i <= v.len(),
                        self.model() == JsonModel::Object(s),
                        *self == Json::Object(*v),
                        s.len() == v@.len(),
                        forall|j: int|
                            0 <= j < v@.len() ==> #[trigger] s[j] == (v@[j].0@, v@[j].1.model()),
                        forall|j: int| 0 <= j < i ==> (#[trigger] s[j]).0 != key@,
                    decreases v.len() - i,
                {
                    assert(s[i as int] == (v@[i as int].0@, v@[i as int].1.model()));
                    if text::same(v[i].0.as_str(), key) {
                        proof {
                            lemma_key_place(s, key@, i as nat);
                        }
                        return Some(&v[i].1);
                    }
                    i += 1;
                }
                proof {
                    lemma_key_place(s, key@, i as nat);
                }
                None
            },
            _ => None,
        }
    }

    /// The same value once more.
    pub fn copy(&self) -> (r: Json)
        ensures
            r.model() == self.model(),
        decreases self,
    {
        match self {
            Json::Null => Json::Null,
            Json::Bool(b) => Json::Bool(*b),
            Json::Number(n) => Json::Number(*n),
            Json::Text(s) => Json::Text(s.clone()),
            Json::List(v) => {
                let mut out: Vec<Json> = Vec::new();
                let mut i: usize = 0;
                while i < v.len()
                    invariant
                        i <= v.len(),
                        *self == Json::List(*v),
                        out@.len() == i,
                        forall|j: int| 0 <= j < i ==> (#[trigger] out@[j]).model() == v@[j].model(),
                    decreases v.len() - i,
                {
                    assert(decreases_to!(*self => self->List_0@[i as int]));
                    let x: Json = v[i].copy();
                    out.push(x);
                    i += 1;
                }
                let r: Json = Json::List(out);
                assert(r.model()->List_0 =~= self.model()->List_0);
                r
            },
            Json::Object(v) => {
                let mut out: Vec<(String, Json)> = Vec::new();
                let mut i: usize = 0;
                while i < v.len()
                    invariant
                        i <= v.len(),
                        *self == Json::Object(*v),
                        out@.len() == i,
                        forall|j: int|
                            0 <= j < i ==> (#[trigger] out@[j]).0@ == v@[j].0@ && out@[j].1.model()
                                == v@[j].1.model(),
                    decreases v.len() - i,
                {
                    assert(decreases_to!(*self => self->Object_0@[i as int].1));
                    let x: Json = v[i].1.copy();
                    out.push((v[i].0.clone(), x));
                    i += 1;
                }
                let r: Json = Json::Object(out);
                assert(r.model()->Object_0 =~= self.model()->Object_0);
                r
            },
        }
    }
}

/// What stands under a key is the value of the first pair with that key.
pub proof fn law_fields_are_found_by_key(s: Seq<(Seq<char>, JsonModel)>, i: int, key: Seq<char>)
    ensures
        0 <= i < s.len() && s[i].0 == key && (forall|j: int|
            0 <= j < i ==> (#[trigger] s[j]).0 != key) ==> JsonModel::Object(s).field(key) == Some(
            s[i].1,
        ),
        (forall|j: int| 0 <= j < s.len() ==> (#[trigger] s[j]).0 != key) ==> JsonModel::Object(
            s,
        ).field(key) is None,
{
    if 0 <= i < s.len() && s[i].0 == key && (forall|j: int|
        0 <= j < i ==> (#[trigger] s[j]).0 != key) {
        lemma_key_place(s, key, i as nat);
    }
    if forall|j: int| 0 <= j < s.len() ==> (#[trigger] s[j]).0 != key {
        lemma_key_place(s, key, s.len());
    }
}

/// Only an object has fields.
pub proof fn law_only_objects_have_fields(v: JsonModel, key: Seq<char>)
    ensures
        v.field(key) is Some ==> v is Object,
{
}

/// Doubles without a sign are ordered as their bits, changing both signs turns
/// the order round, what has a sign is below what has none, and the two zeros
/// are equal.
pub proof fn law_doubles_are_ordered_by_sign_and_bits(a: u64, b: u64)
    requires
        a <= 0x7ff0_0000_0000_0000,
        b <= 0x7ff0_0000_0000_0000,
    ensures
        ({
            let (pa, pb) = (F64 { bits: a }, F64 { bits: b });
            let (na, nb) = (
                F64 { bits: (a + 0x8000_0000_0000_0000) as u64 },
                F64 { bits: (b + 0x8000_0000_0000_0000) as u64 },
            );
            &&& pa.below(pb) <==> a < b
            &&& nb.below(na) <==> a < b
            &&& na.below(pb) <==> a > 0 || b > 0
            &&& !pa.below(nb)
        }),
{
}

/// A double is a NaN where all eleven exponent bits are set and the fraction is
/// not zero, and then it is neither below nor above anything.
pub proof fn law_exponents_tell_doubles_apart(a: F64, b: F64)
    ensures
        a.nan() <==> a.bits as int / 0x10_0000_0000_0000 % 2048 == 2047 && a.bits as int
            % 0x10_0000_0000_0000 != 0,
        a.nan() ==> !a.below(b) && !b.below(a),
{
}

/// What is said of a value is said of what it holds, down to its elements and
/// fields.
pub proof fn law_values_are_seen_whole(v: Json, i: int)
    ensures
        v is Null ==> v.model() is Null,
        v matches Json::Bool(b) ==> v.model() == JsonModel::Bool(b),
        v matches Json::Number(n) ==> v.model() == JsonModel::Number(n),
        v matches Json::Text(s) ==> v.model() == JsonModel::Text(s@),
        v matches Json::List(l) ==> v.model() is List && v.model()->List_0.len() == l@.len() && (0
            <= i < l@.len() ==> v.model()->List_0[i] == l@[i].model()),
        v matches Json::Object(o) ==> v.model() is Object && v.model()->Object_0.len() == o@.len()
            && (0 <= i < o@.len() ==> v.model()->Object_0[i] == (o@[i].0@, o@[i].1.model())),
{
}

} // verus!
