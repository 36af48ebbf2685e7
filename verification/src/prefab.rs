//! Prefabs: what a node of a scene is in the game, read from its extras.
use vstd::prelude::*;
use vstd::string::*;

use crate::json;
use crate::json::{F64, Json};

verus! {

/// Which prefab to spawn, with its parameters. The parameters stay as they were
/// written, so a new prefab is a new spawn function and no change of format.
pub struct PrefabSpec {
    pub id: String,
    pub params: Json,
}

/// What a prefab says.
pub struct PrefabModel {
    pub id: Seq<char>,
    pub params: json::JsonModel,
}

impl View for PrefabSpec {
    type V = PrefabModel;

    open spec fn view(&self) -> PrefabModel {
        PrefabModel { id: self.id@, params: self.params.model() }
    }
}

/// Why extras name no prefab although they mean to.
#[derive(Clone, Copy, PartialEq, Eq, Debug, Structural)]
pub enum PrefabError {
    /// The extras are not valid JSON.
    BadJson,
    /// What stands under `prefab` is not a string.
    NotAString,
}

/// The prefab that extras name, if any.
pub open spec fn prefab_in(value: json::JsonModel) -> Result<Option<PrefabModel>, PrefabError> {
    match value.field("prefab"@) {
        None => Ok(None),
        Some(json::JsonModel::Text(id)) => Ok(
            Some(
                PrefabModel {
                    id,
                    params: match value.field("params"@) {
                        Some(p) => p,
                        None => json::JsonModel::Null,
                    },
                },
            ),
        ),
        Some(_) => Err(PrefabError::NotAString),
    }
}

/// The prefab that the text of extras names, given what the text reads as.
pub open spec fn prefab_read(value: Option<json::JsonModel>) -> Result<
    Option<PrefabModel>,
    PrefabError,
> {
    match value {
        None => Err(PrefabError::BadJson),
        Some(v) => prefab_in(v),
    }
}

pub open spec fn prefab_view(p: Option<PrefabSpec>) -> Option<PrefabModel> {
    match p {
        Some(p) => Some(p@),
        None => None,
    }
}

/// The prefab that extras name. Extras without a `prefab` key are no error:
/// other tools write there too.
pub fn prefab_of(value: &Json) -> (r: Result<Option<PrefabSpec>, PrefabError>)
    ensures
        match r {
            Ok(p) => prefab_in(value.model()) == Ok::<Option<PrefabModel>, PrefabError>(
                prefab_view(p),
            ),
            Err(e) => prefab_in(value.model()) == Err::<Option<PrefabModel>, PrefabError>(e),
        },
{
    match value.get("prefab") {
        None => Ok(None),
        Some(Json::Text(id)) => {
            let params: Json = match value.get("params") {
                Some(p) => p.copy(),
                None => Json::Null,
            };
            Ok(Some(PrefabSpec { id: id.clone(), params }))
        },
        Some(_) => Err(PrefabError::NotAString),
    }
}

/// The prefab that the extras of a node name, given as their text.
pub fn read_prefab(extras: Option<&str>) -> (r: Result<Option<PrefabSpec>, PrefabError>)
    ensures
        extras is None ==> r matches Ok(None),
        extras matches Some(t) ==> match r {
            Ok(p) => prefab_read(json::json_of_text(t@)) == Ok::<
                Option<PrefabModel>,
                PrefabError,
            >(prefab_view(p)),
            Err(e) => prefab_read(json::json_of_text(t@)) == Err::<
                Option<PrefabModel>,
                PrefabError,
            >(e),
        },
{
    match extras {
        None => Ok(None),
        Some(t) => match json::parse_json(t) {
            None => Err(PrefabError::BadJson),
            Some(v) => prefab_of(&v),
        },
    }
}

/// The numbers among some values, in order.
pub open spec fn numbers_in(s: Seq<json::JsonModel>) -> Seq<F64>
    decreases s.len(),
{
    if s.len() == 0 {
        Seq::empty()
    } else {
        let before = numbers_in(s.drop_last());
        match s.last() {
            json::JsonModel::Number(n) => before.push(n),
            _ => before,
        }
    }
}

impl PrefabModel {
    pub open spec fn number(self, key: Seq<char>) -> Option<F64> {
        match self.params.field(key) {
            Some(json::JsonModel::Number(n)) => Some(n),
            _ => None,
        }
    }

    pub open spec fn truth(self, key: Seq<char>) -> Option<bool> {
        match self.params.field(key) {
            Some(json::JsonModel::Bool(b)) => Some(b),
            _ => None,
        }
    }

    pub open spec fn text(self, key: Seq<char>) -> Option<Seq<char>> {
        match self.params.field(key) {
            Some(json::JsonModel::Text(s)) => Some(s),
            _ => None,
        }
    }

    /// A list that holds exactly three numbers.
    pub open spec fn triple(self, key: Seq<char>) -> Option<(F64, F64, F64)> {
        match self.params.field(key) {
            Some(json::JsonModel::List(s)) => {
                let n = numbers_in(s);
                if n.len() == 3 {
                    Some((n[0], n[1], n[2]))
                } else {
                    None
                }
            },
            _ => None,
        }
    }
}

impl PrefabSpec {
    /// A parameter that is a number.
    pub fn number(&self, key: &str) -> (r: Option<F64>)
        ensures
            r == self@.number(key@),
    {
        match self.params.get(key) {
            Some(Json::Number(n)) => Some(*n),
            _ => None,
        }
    }

    /// A parameter that is true or false.
    pub fn bool(&self, key: &str) -> (r: Option<bool>)
        ensures
            r == self@.truth(key@),
    {
        match self.params.get(key) {
            Some(Json::Bool(b)) => Some(*b),
            _ => None,
        }
    }

    /// A parameter that is a text.
    pub fn str(&self, key: &str) -> (r: Option<&str>)
        ensures
            match r {
                Some(s) => self@.text(key@) == Some(s@),
                None => self@.text(key@) is None,
            },
    {
        match self.params.get(key) {
            Some(Json::Text(s)) => Some(s.as_str()),
            _ => None,
        }
    }

    /// A parameter that is a list of three numbers; anything else in the list
    /// is passed over.
    pub fn vec3(&self, key: &str) -> (r: Option<(F64, F64, F64)>)
        ensures
            r == self@.triple(key@),
    {
        match self.params.get(key) {
            Some(Json::List(v)) => {
                let ghost s = self.params.model().field(key@)->0->List_0;
                let mut n: Vec<F64> = Vec::new();
                let mut i: usize = 0;
                assert(s.take(0) =~= Seq::empty());
                while i < v.len()
                    invariant
                        i <= v.len(),
                        s.len() == v@.len(),
                        forall|j: int| 0 <= j < v@.len() ==> #[trigger] s[j] == v@[j].model(),
                        n@ == numbers_in(s.take(i as int)),
                    decreases v.len() - i,
                {
                    assert(s.take(i + 1).drop_last() =~= s.take(i as int));
                    assert(s.take(i + 1).last() == v@[i as int].model());
                    match &v[i] {
                        Json::Number(x) => n.push(*x),
                        _ => {},
                    }
                    i += 1;
                }
                assert(s.take(i as int) =~= s);
                if n.len() == 3 {
                    Some((n[0], n[1], n[2]))
                } else {
                    None
                }
            },
            _ => None,
        }
    }

    /// The same prefab once more.
    pub fn copy(&self) -> (r: PrefabSpec)
        ensures
            r@ == self@,
    {
        PrefabSpec { id: self.id.clone(), params: self.params.copy() }
    }
}

/// A parameter has at most one type, and a missing one has none.
pub proof fn law_params_are_typed(p: PrefabModel, key: Seq<char>)
    ensures
        p.number(key) is Some ==> p.truth(key) is None && p.text(key) is None && p.triple(
            key,
        ) is None,
        p.truth(key) is Some ==> p.text(key) is None && p.triple(key) is None,
        p.text(key) is Some ==> p.triple(key) is None,
        p.params.field(key) is None ==> {
            &&& p.number(key) is None
            &&& p.truth(key) is None
            &&& p.text(key) is None
            &&& p.triple(key) is None
        },
{
}

/// Extras name a prefab by the text under `prefab`, with the parameters under
/// `params`, or none. Without that key they name none, and anything but a text
/// there is an error.
pub proof fn law_extras_name_their_prefab(value: json::JsonModel, id: Seq<char>)
    ensures
        value.field("prefab"@) is None ==> prefab_in(value) matches Ok(None),
        value.field("prefab"@) == Some(json::JsonModel::Text(id)) ==> (prefab_in(value) matches Ok(
            Some(p),
        ) && p.id == id && (value.field("params"@) matches Some(params) ==> p.params == params)
            && (value.field("params"@) is None ==> p.params is Null)),
        value.field("prefab"@) matches Some(v) ==> v !is Text ==> prefab_in(value) == Err::<
            Option<PrefabModel>,
            PrefabError,
        >(PrefabError::NotAString),
        prefab_read(None) == Err::<Option<PrefabModel>, PrefabError>(PrefabError::BadJson),
        prefab_read(Some(value)) == prefab_in(value),
{
}

/// A parameter is given back as it was written, under its own key and as its own
/// type.
pub proof fn law_params_are_given_back(p: PrefabModel, key: Seq<char>, v: json::JsonModel)
    requires
        p.params.field(key) == Some(v),
    ensures
        v matches json::JsonModel::Number(n) ==> p.number(key) == Some(n),
        v matches json::JsonModel::Bool(b) ==> p.truth(key) == Some(b),
        v matches json::JsonModel::Text(s) ==> p.text(key) == Some(s),
        v !is Number ==> p.number(key) is None,
        v !is Bool ==> p.truth(key) is None,
        v !is Text ==> p.text(key) is None,
        v !is List ==> p.triple(key) is None,
{
}

/// A list of three numbers is a triple of them, in order, and a list is none
/// where it has more numbers or fewer, whatever else stands in it.
pub proof fn law_triples_are_three_numbers(
    p: PrefabModel,
    key: Seq<char>,
    s: Seq<json::JsonModel>,
)
    requires
        p.params.field(key) == Some(json::JsonModel::List(s)),
    ensures
        ({
            let numbers = s.filter(|v: json::JsonModel| v is Number);
            match p.triple(key) {
                Some((x, y, z)) => numbers == seq![
                    json::JsonModel::Number(x),
                    json::JsonModel::Number(y),
                    json::JsonModel::Number(z),
                ],
                None => numbers.len() != 3,
            }
        }),
{
    lemma_numbers_filtered(s);
    let numbers = s.filter(|v: json::JsonModel| v is Number);
    if let Some((x, y, z)) = p.triple(key) {
        assert(numbers =~= seq![
            json::JsonModel::Number(x),
            json::JsonModel::Number(y),
            json::JsonModel::Number(z),
        ]);
    }
}

proof fn lemma_numbers_filtered(s: Seq<json::JsonModel>)
    ensures
        s.filter(|v: json::JsonModel| v is Number) == numbers_in(s).map_values(
            |n: F64| json::JsonModel::Number(n),
        ),
    decreases s.len(),
{
    reveal(Seq::filter);
    let wrap = |n: F64| json::JsonModel::Number(n);
    if s.len() > 0 {
        lemma_numbers_filtered(s.drop_last());
        let less = numbers_in(s.drop_last());
        if let json::JsonModel::Number(n) = s.last() {
            assert(less.push(n).map_values(wrap) =~= less.map_values(wrap).push(wrap(n)));
        }
    } else {
        assert(numbers_in(s).map_values(wrap) =~= seq![]);
    }
}

/// What is said of a prefab is said of its name and its parameters.
pub proof fn law_prefabs_are_seen_whole(p: PrefabSpec)
    ensures
        p@.id == p.id@,
        p@.params == p.params.model(),
        prefab_view(Some(p)) == Some(p@),
        prefab_view(None) is None,
{
}

} // verus!
