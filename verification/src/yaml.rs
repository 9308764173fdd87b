//! YAML documents as plain values: the tree that the template logic reads
//! and rebuilds, with its mathematical model.

use vstd::prelude::*;

verus! {

broadcast use vstd::std_specs::vec::group_vec_axioms;

/// A YAML node. Mappings keep their entries in document order; in a
/// well-formed node (`well_formed` of its model, which every parsed node
/// has) their keys are distinct.
#[derive(Debug, PartialEq)]
pub enum YamlValue {
    /// A float, kept as its source text.
    Real(String),
    Integer(i64),
    /// A string scalar.
    Text(String),
    Boolean(bool),
    Array(Vec<YamlValue>),
    Mapping(Vec<(YamlValue, YamlValue)>),
    Alias(usize),
    Null,
    BadValue,
}

/// The mathematical model of a YAML node.
pub enum YamlModel {
    Real(Seq<char>),
    Integer(i64),
    Text(Seq<char>),
    Boolean(bool),
    Array(Seq<YamlModel>),
    Mapping(Seq<(YamlModel, YamlModel)>),
    Alias(usize),
    Null,
    BadValue,
}

/// No two entries of a mapping model have the same key.
pub open spec fn model_keys_distinct(m: Seq<(YamlModel, YamlModel)>) -> bool {
    forall|i: int, j: int| 0 <= i < j < m.len() ==> m[i].0 != m[j].0
}

/// A model in which every mapping, at every depth, has distinct keys.
pub open spec fn well_formed(m: YamlModel) -> bool
    decreases m,
{
    match m {
        YamlModel::Array(items) => forall|i: int|
            #![trigger items[i]]
            0 <= i < items.len() ==> well_formed(items[i]),
        YamlModel::Mapping(entries) => {
            &&& model_keys_distinct(entries)
            &&& forall|i: int|
                #![trigger entries[i]]
                0 <= i < entries.len() ==> well_formed(entries[i].0) && well_formed(entries[i].1)
        },
        _ => true,
    }
}

impl YamlValue {
    /// The model of this node.
    pub open spec fn model(&self) -> YamlModel
        decreases self,
    {
        match self {
            YamlValue::Real(s) => YamlModel::Real(s@),
            YamlValue::Integer(i) => YamlModel::Integer(*i),
            YamlValue::Text(s) => YamlModel::Text(s@),
            YamlValue::Boolean(b) => YamlModel::Boolean(*b),
            YamlValue::Array(v) => YamlModel::Array(
                Seq::new(
                    v@.len(),
                    |i: int|
                        if 0 <= i < v@.len() {
                            v@[i].model()
                        } else {
                            YamlModel::Null
                        },
                ),
            ),
            YamlValue::Mapping(v) => YamlModel::Mapping(
                Seq::new(
                    v@.len(),
                    |i: int|
                        if 0 <= i < v@.len() {
                            (v@[i].0.model(), v@[i].1.model())
                        } else {
                            (YamlModel::Null, YamlModel::Null)
                        },
                ),
            ),
            YamlValue::Alias(a) => YamlModel::Alias(*a),
            YamlValue::Null => YamlModel::Null,
            YamlValue::BadValue => YamlModel::BadValue,
        }
    }

    /// A copy of this node, with the same model.
    pub fn deep_clone(&self) -> (r: YamlValue)
        ensures
            r.model() == self.model(),
        decreases self,
    {
        match self {
            YamlValue::Real(s) => YamlValue::Real(s.clone()),
            YamlValue::Integer(i) => YamlValue::Integer(*i),
            YamlValue::Text(s) => YamlValue::Text(s.clone()),
            YamlValue::Boolean(b) => YamlValue::Boolean(*b),
            YamlValue::Array(v) => {
                let mut out: Vec<YamlValue> = Vec::new();
                let mut i: usize = 0;
                while i < v.len()
                    invariant
                        *self == YamlValue::Array(*v),
                        i <= v@.len(),
                        out@.len() == i,
                        forall|j: int| 0 <= j < i ==> (#[trigger] out@[j]).model() == v@[j].model(),
                    decreases v.len() - i,
                {
                    proof {
                        assert(decreases_to!(*self => (*self)->Array_0));
                        assert(decreases_to!(*v => v[i as int]));
                    }
                    let c = v[i].deep_clone();
                    out.push(c);
                    i = i + 1;
                }
                let r = YamlValue::Array(out);
                proof {
                    assert(r.model()->Array_0 =~= self.model()->Array_0);
                }
                r
            },
            YamlValue::Mapping(v) => {
                let mut out: Vec<(YamlValue, YamlValue)> = Vec::new();
                let mut i: usize = 0;
                while i < v.len()
                    invariant
                        *self == YamlValue::Mapping(*v),
                        i <= v@.len(),
                        out@.len() == i,
                        forall|j: int|
                            0 <= j < i ==> (#[trigger] out@[j]).0.model() == v@[j].0.model()
                                && out@[j].1.model() == v@[j].1.model(),
                    decreases v.len() - i,
                {
                    proof {
                        assert(decreases_to!(*self => (*self)->Mapping_0));
                        assert(decreases_to!(*v => v[i as int]));
                        assert(decreases_to!(v[i as int] => v[i as int].0));
                        assert(decreases_to!(v[i as int] => v[i as int].1));
                    }
                    let k = v[i].0.deep_clone();
                    let val = v[i].1.deep_clone();
                    out.push((k, val));
                    i = i + 1;
                }
                let r = YamlValue::Mapping(out);
                proof {
                    assert(r.model()->Mapping_0 =~= self.model()->Mapping_0);
                }
                r
            },
            YamlValue::Alias(a) => YamlValue::Alias(*a),
            YamlValue::Null => YamlValue::Null,
            YamlValue::BadValue => YamlValue::BadValue,
        }
    }

    /// The string of a string scalar (`Yaml::as_str`).
    pub fn as_str(&self) -> (r: Option<&str>)
        ensures
            r is Some == self.model() is Text,
            r matches Some(s) ==> self.model() == YamlModel::Text(s@),
    {
        match self {
            YamlValue::Text(s) => Some(s.as_str()),
            _ => None,
        }
    }

    /// The entries of a mapping (`Yaml::as_hash`).
    pub fn as_mapping(&self) -> (r: Option<&Vec<(YamlValue, YamlValue)>>)
        ensures
            r is Some == self.model() is Mapping,
            r matches Some(m) ==> self.model() == YamlModel::Mapping(entries_model(m@)),
    {
        match self {
            YamlValue::Mapping(m) => {
                proof {
                    assert(self.model()->Mapping_0 =~= entries_model(m@));
                }
                Some(m)
            },
            _ => None,
        }
    }

    /// The items of an array (`Yaml::as_vec`).
    pub fn as_array(&self) -> (r: Option<&Vec<YamlValue>>)
        ensures
            r is Some == self.model() is Array,
            r matches Some(v) ==> self.model() == YamlModel::Array(items_model(v@)),
    {
        match self {
            YamlValue::Array(v) => {
                proof {
                    assert(self.model()->Array_0 =~= items_model(v@));
                }
                Some(v)
            },
            _ => None,
        }
    }
}

impl Clone for YamlValue {
    fn clone(&self) -> (r: Self)
        ensures
            r.model() == self.model(),
    {
        self.deep_clone()
    }
}

/// The models of a sequence of nodes.
pub open spec fn items_model(v: Seq<YamlValue>) -> Seq<YamlModel> {
    Seq::new(v.len(), |i: int| v[i].model())
}

/// The models of a sequence of mapping entries.
pub open spec fn entries_model(v: Seq<(YamlValue, YamlValue)>) -> Seq<(YamlModel, YamlModel)> {
    Seq::new(v.len(), |i: int| (v[i].0.model(), v[i].1.model()))
}

/// The value of the first entry of `m` whose key is the string `k`.
pub open spec fn lookup_text(m: Seq<(YamlModel, YamlModel)>, k: Seq<char>) -> Option<YamlModel>
    decreases m.len(),
{
    if m.len() == 0 {
        None
    } else if m[0].0 == YamlModel::Text(k) {
        Some(m[0].1)
    } else {
        lookup_text(m.drop_first(), k)
    }
}

/// Looks up the value stored under the string key `key` in a mapping.
pub fn mapping_get<'a>(entries: &'a Vec<(YamlValue, YamlValue)>, key: &str) -> (r: Option<
    &'a YamlValue,
>)
    ensures
        r is Some == lookup_text(entries_model(entries@), key@) is Some,
        r matches Some(v) ==> lookup_text(entries_model(entries@), key@) == Some(v.model()),
{
    let ghost m = entries_model(entries@);
    let wanted = key.to_owned();
    let mut i: usize = 0;
    proof {
        assert(m.skip(0) =~= m);
    }
    while i < entries.len()
        invariant
            i <= entries@.len(),
            m == entries_model(entries@),
            wanted@ == key@,
            lookup_text(m.skip(i as int), key@) == lookup_text(m, key@),
        decreases entries.len() - i,
    {
        let ghost rest = m.skip(i as int);
        proof {
            assert(rest[0] == m[i as int]);
            assert(rest.drop_first() =~= m.skip(i + 1));
        }
        match &entries[i].0 {
            YamlValue::Text(s) => {
                if *s == wanted {
                    return Some(&entries[i].1);
                }
            },
            _ => {},
        }
        i = i + 1;
    }
    proof {
        assert(m.skip(i as int).len() == 0);
    }
    None
}

} // verus!
