use vstd::prelude::*;

verus! {

/// A parsed JSON value.
///
/// Numbers keep the characters of their literal (`"3.414"`), which the number
/// grammar guarantees to be a well-formed decimal; converting them to a
/// floating-point value is left to the caller.
#[derive(Debug, PartialEq)]
pub enum Json {
    Object(Vec<Member>),
    Array(Vec<Json>),
    Number(String),
    String(String),
    True,
    False,
    Null,
}

/// One entry of an object. The objects that `parse` builds hold each key
/// once (`laws::object_keys_are_unique`).
#[derive(Debug, PartialEq)]
pub struct Member {
    pub key: String,
    pub value: Json,
}

/// The mathematical value of a `Json` tree.
pub enum JsonModel {
    Object(Seq<(Seq<char>, JsonModel)>),
    Array(Seq<JsonModel>),
    Number(Seq<char>),
    Str(Seq<char>),
    True,
    False,
    Null,
}

impl Json {
    pub open spec fn model(self) -> JsonModel
        decreases self, 0nat,
    {
        match self {
            Json::Object(ms) => JsonModel::Object(member_models(ms@)),
            Json::Array(vs) => JsonModel::Array(models(vs@)),
            Json::Number(t) => JsonModel::Number(t@),
            Json::String(s) => JsonModel::Str(s@),
            Json::True => JsonModel::True,
            Json::False => JsonModel::False,
            Json::Null => JsonModel::Null,
        }
    }
}

impl Json {
    /// The element at `idx`, where `self` is an array that long.
    pub fn at(&self, idx: usize) -> (r: Option<&Json>)
        ensures
            match self {
                Json::Array(vs) => if idx < vs@.len() {
                    r == Some(&vs@[idx as int])
                } else {
                    r is None
                },
                _ => r is None,
            },
    {
        match self {
            Json::Array(vs) => if idx < vs.len() {
                Some(&vs[idx])
            } else {
                None
            },
            _ => None,
        }
    }

    /// The value that `key` maps to, where `self` is an object that has it.
    pub fn get(&self, key: &str) -> (r: Option<&Json>)
        ensures
            match self {
                Json::Object(ms) => match r {
                    Some(v) => exists|i: int| #[trigger]
                        first_with_key(ms@, key@, i) && *v == ms@[i].value,
                    None => forall|i: int| 0 <= i < ms@.len() ==> #[trigger] ms@[i].key@ != key@,
                },
                _ => r is None,
            },
    {
        match self {
            Json::Object(ms) => {
                let k = key.to_owned();
                let mut i: usize = 0;
                while i < ms.len()
                    invariant
                        *self == Json::Object(*ms),
                        i <= ms@.len(),
                        k@ == key@,
                        forall|j: int| 0 <= j < i ==> ms@[j].key@ != key@,
                    decreases ms@.len() - i,
                {
                    if ms[i].key == k {
                        let found = &ms[i].value;
                        assert(first_with_key(ms@, key@, i as int));
                        return Some(found);
                    }
                    i = i + 1;
                }
                None
            },
            _ => None,
        }
    }
}

/// Entry `i` is the first one with `key`.
pub open spec fn first_with_key(ms: Seq<Member>, key: Seq<char>, i: int) -> bool {
    &&& 0 <= i < ms.len()
    &&& ms[i].key@ == key
    &&& forall|j: int| 0 <= j < i ==> ms[j].key@ != key
}

pub open spec fn models(s: Seq<Json>) -> Seq<JsonModel>
    decreases s, s.len(),
{
    if s.len() == 0 {
        Seq::empty()
    } else {
        models(s.drop_last()).push(s.last().model())
    }
}

pub open spec fn member_models(s: Seq<Member>) -> Seq<(Seq<char>, JsonModel)>
    decreases s, s.len(),
{
    if s.len() == 0 {
        Seq::empty()
    } else {
        member_models(s.drop_last()).push((s.last().key@, s.last().value.model()))
    }
}

pub proof fn lemma_models(s: Seq<Json>)
    ensures
        models(s).len() == s.len(),
        forall|i: int| 0 <= i < s.len() ==> #[trigger] models(s)[i] == s[i].model(),
    decreases s.len(),
{
    if s.len() > 0 {
        lemma_models(s.drop_last());
    }
}

pub proof fn lemma_member_models(s: Seq<Member>)
    ensures
        member_models(s).len() == s.len(),
        forall|i: int|
            0 <= i < s.len() ==> #[trigger] member_models(s)[i] == (
            s[i].key@,
            s[i].value.model(),
            ),
    decreases s.len(),
{
    if s.len() > 0 {
        lemma_member_models(s.drop_last());
    }
}

/// `models` commutes with taking a contiguous part of the sequence.
pub proof fn lemma_models_subrange(s: Seq<Json>, i: int, j: int)
    requires
        0 <= i <= j <= s.len(),
    ensures
        models(s.subrange(i, j)) == models(s).subrange(i, j),
{
    lemma_models(s);
    lemma_models(s.subrange(i, j));
    assert(models(s.subrange(i, j)) =~= models(s).subrange(i, j));
}

pub proof fn lemma_models_push(s: Seq<Json>, x: Json)
    ensures
        models(s.push(x)) == models(s).push(x.model()),
{
    assert(s.push(x).drop_last() =~= s);
}

pub proof fn lemma_models_drop_last(s: Seq<Json>)
    requires
        s.len() > 0,
    ensures
        models(s.drop_last()) == models(s).drop_last(),
        models(s).last() == s.last().model(),
        models(s).len() == s.len(),
{
    lemma_models(s);
    assert(models(s.drop_last()) =~= models(s).drop_last());
}

/// The model of what a parse returns.
pub open spec fn result_model<E>(r: Result<Json, E>) -> Result<JsonModel, E> {
    match r {
        Ok(j) => Ok(j.model()),
        Err(e) => Err(e),
    }
}

/// The value that `key` is mapped to, taking the first entry that has it.
pub open spec fn lookup(ms: Seq<(Seq<char>, JsonModel)>, key: Seq<char>) -> Option<JsonModel>
    decreases ms.len(),
{
    if ms.len() == 0 {
        None
    } else if ms[0].0 == key {
        Some(ms[0].1)
    } else {
        lookup(ms.drop_first(), key)
    }
}

} // verus!
