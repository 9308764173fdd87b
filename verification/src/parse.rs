//! YAML text as the library reads it: `yaml_rust2` parses, and each parsed
//! node is turned into a `YamlValue` with the same model.

use crate::yaml::{model_keys_distinct, well_formed, YamlModel, YamlValue};
use vstd::prelude::*;
use yaml_rust2::{Yaml, YamlLoader};

verus! {

/// `yaml_rust2::Yaml`, a parsed YAML node.
#[verifier::external_type_specification]
#[verifier::external_body]
pub struct ExYaml(Yaml);

/// What a parsed node holds, as a plain model.
pub uninterp spec fn node_model(y: Yaml) -> YamlModel;

/// What `YamlLoader::load_from_str` gives for `text`: the documents it
/// parses into, or, when it does not scan, the scan error's message, byte
/// index, line and column.
pub uninterp spec fn parsed_documents(text: Seq<char>) -> Result<
    Seq<YamlModel>,
    (Seq<char>, usize, usize, usize),
>;

/// Why a text does not scan: the message of `yaml_rust2`'s `ScanError`,
/// and where it happened (byte index, line, column).
#[derive(Debug, Clone, PartialEq, Eq)]
pub struct ScanFailure {
    pub info: String,
    pub index: usize,
    pub line: usize,
    pub col: usize,
}

impl View for ScanFailure {
    type V = (Seq<char>, usize, usize, usize);

    open spec fn view(&self) -> (Seq<char>, usize, usize, usize) {
        (self.info@, self.index, self.line, self.col)
    }
}

/// One level of a parsed node: its variant, with references to its parts.
pub enum YamlNode<'a> {
    Real(&'a String),
    Integer(i64),
    Text(&'a String),
    Boolean(bool),
    Array(&'a Vec<Yaml>),
    Mapping(Vec<(&'a Yaml, &'a Yaml)>),
    Alias(usize),
    Null,
    BadValue,
}

/// A mapping with distinct keys and well-formed entries is well-formed.
pub proof fn lemma_mapping_well_formed(m: YamlModel)
    requires
        m is Mapping,
        model_keys_distinct(m->Mapping_0),
        forall|i: int|
            #![trigger (m->Mapping_0)[i]]
            0 <= i < (m->Mapping_0).len() ==> well_formed((m->Mapping_0)[i].0) && well_formed(
                (m->Mapping_0)[i].1,
            ),
    ensures
        well_formed(m),
{
    reveal_with_fuel(well_formed, 2);
}

/// `YamlLoader::load_from_str`: the parsed documents, or the scan error's
/// message and position.
#[verifier::external_body]
pub(crate) fn load_documents(text: &str) -> (r: Result<Vec<Yaml>, ScanFailure>)
    ensures
        r is Ok == parsed_documents(text@) is Ok,
        r matches Ok(d) ==> d@.map_values(|y: Yaml| node_model(y)) == parsed_documents(
            text@,
        )->Ok_0,
        r matches Err(e) ==> e@ == parsed_documents(text@)->Err_0,
{
    match YamlLoader::load_from_str(text) {
        Ok(docs) => Ok(docs),
        Err(e) => Err(
            ScanFailure {
                info: e.info().to_string(),
                index: e.marker().index(),
                line: e.marker().line(),
                col: e.marker().col(),
            },
        ),
    }
}

/// Looks at one level of a `yaml_rust2::Yaml`: which variant it is, and its
/// parts (a hash as its entries in order, by `LinkedHashMap::iter`). A hash
/// holds each key once, and distinct nodes have distinct models.
#[verifier::external_body]
fn yaml_node(y: &Yaml) -> (r: YamlNode<'_>)
    ensures
        match r {
            YamlNode::Real(s) => node_model(*y) == YamlModel::Real(s@),
            YamlNode::Integer(i) => node_model(*y) == YamlModel::Integer(i),
            YamlNode::Text(s) => node_model(*y) == YamlModel::Text(s@),
            YamlNode::Boolean(b) => node_model(*y) == YamlModel::Boolean(b),
            YamlNode::Array(v) => node_model(*y) == YamlModel::Array(
                v@.map_values(|c: Yaml| node_model(c)),
            ),
            YamlNode::Mapping(es) => {
                &&& node_model(*y) == YamlModel::Mapping(
                    es@.map_values(|e: (&Yaml, &Yaml)| (node_model(*e.0), node_model(*e.1))),
                )
                &&& model_keys_distinct(
                    es@.map_values(|e: (&Yaml, &Yaml)| (node_model(*e.0), node_model(*e.1))),
                )
            },
            YamlNode::Alias(a) => node_model(*y) == YamlModel::Alias(a),
            YamlNode::Null => node_model(*y) == YamlModel::Null,
            YamlNode::BadValue => node_model(*y) == YamlModel::BadValue,
        },
{
    match y {
        Yaml::Real(s) => YamlNode::Real(s),
        Yaml::Integer(i) => YamlNode::Integer(*i),
        Yaml::String(s) => YamlNode::Text(s),
        Yaml::Boolean(b) => YamlNode::Boolean(*b),
        Yaml::Array(v) => YamlNode::Array(v),
        Yaml::Hash(h) => YamlNode::Mapping(h.iter().collect()),
        Yaml::Alias(a) => YamlNode::Alias(*a),
        Yaml::Null => YamlNode::Null,
        Yaml::BadValue => YamlNode::BadValue,
    }
}

/// The library's tree for a parsed node: same model, well-formed.
pub fn value_from_yaml(y: &Yaml) -> (r: YamlValue)
    ensures
        r.model() == node_model(*y),
        well_formed(r.model()),
    decreases node_model(*y),
{
    match yaml_node(y) {
        YamlNode::Real(s) => YamlValue::Real(s.clone()),
        YamlNode::Integer(i) => YamlValue::Integer(i),
        YamlNode::Text(s) => YamlValue::Text(s.clone()),
        YamlNode::Boolean(b) => YamlValue::Boolean(b),
        YamlNode::Array(v) => {
            let ghost m = node_model(*y);
            let mut out: Vec<YamlValue> = Vec::new();
            let mut i: usize = 0;
            while i < v.len()
                invariant
                    i <= v@.len(),
                    m == node_model(*y),
                    m == YamlModel::Array(v@.map_values(|c: Yaml| node_model(c))),
                    out@.len() == i,
                    forall|j: int|
                        0 <= j < i ==> (#[trigger] out@[j]).model() == node_model(v@[j]) && well_formed(
                            out@[j].model(),
                        ),
                decreases v.len() - i,
            {
                proof {
                    let items = m->Array_0;
                    assert(items[i as int] == node_model(v@[i as int]));
                    assert(decreases_to!(m => items));
                    assert(decreases_to!(items => items[i as int]));
                }
                let c = value_from_yaml(&v[i]);
                out.push(c);
                i = i + 1;
            }
            let r = YamlValue::Array(out);
            proof {
                assert(r.model()->Array_0 =~= m->Array_0);
                assert forall|j: int| 0 <= j < (m->Array_0).len() implies #[trigger] well_formed(
                    (m->Array_0)[j],
                ) by {
                    assert(out@[j].model() == (m->Array_0)[j]);
                }
            }
            r
        },
        YamlNode::Mapping(es) => {
            let ghost m = node_model(*y);
            let mut out: Vec<(YamlValue, YamlValue)> = Vec::new();
            let mut i: usize = 0;
            while i < es.len()
                invariant
                    i <= es@.len(),
                    m == node_model(*y),
                    m == YamlModel::Mapping(
                        es@.map_values(|e: (&Yaml, &Yaml)| (node_model(*e.0), node_model(*e.1))),
                    ),
                    out@.len() == i,
                    forall|j: int|
                        0 <= j < i ==> (#[trigger] out@[j]).0.model() == node_model(*es@[j].0)
                            && out@[j].1.model() == node_model(*es@[j].1) && well_formed(
                            out@[j].0.model(),
                        ) && well_formed(out@[j].1.model()),
                decreases es.len() - i,
            {
                proof {
                    let entries = m->Mapping_0;
                    assert(entries[i as int] == (node_model(*es@[i as int].0), node_model(*es@[i as int].1)));
                    assert(decreases_to!(m => entries));
                    assert(decreases_to!(entries => entries[i as int]));
                    assert(decreases_to!(entries[i as int] => entries[i as int].0));
                    assert(decreases_to!(entries[i as int] => entries[i as int].1));
                }
                let k = value_from_yaml(es[i].0);
                let val = value_from_yaml(es[i].1);
                out.push((k, val));
                i = i + 1;
            }
            let r = YamlValue::Mapping(out);
            proof {
                assert(r.model()->Mapping_0 =~= m->Mapping_0);
                assert forall|j: int| 0 <= j < (m->Mapping_0).len() implies #[trigger] well_formed(
                    (m->Mapping_0)[j].0,
                ) && well_formed((m->Mapping_0)[j].1) by {
                    assert(out@[j].0.model() == (m->Mapping_0)[j].0);
                    assert(out@[j].1.model() == (m->Mapping_0)[j].1);
                }
            }
            r
        },
        YamlNode::Alias(a) => YamlValue::Alias(a),
        YamlNode::Null => YamlValue::Null,
        YamlNode::BadValue => YamlValue::BadValue,
    }
}

/// The last document that `text` parses to, if it parses and holds one.
pub open spec fn last_document(text: Seq<char>) -> Option<YamlModel> {
    match parsed_documents(text) {
        Ok(d) => if d.len() > 0 {
            Some(d.last())
        } else {
            None
        },
        Err(_) => None,
    }
}

/// Parses `text` and returns all its documents, or why it does not scan.
pub fn documents_from_text(text: &str) -> (r: Result<Vec<YamlValue>, ScanFailure>)
    ensures
        r is Ok == parsed_documents(text@) is Ok,
        r matches Ok(v) ==> crate::yaml::items_model(v@) == parsed_documents(text@)->Ok_0,
        r matches Ok(v) ==> forall|i: int| 0 <= i < v@.len() ==> well_formed(#[trigger] v@[i].model()),
        r matches Err(e) ==> e@ == parsed_documents(text@)->Err_0,
{
    let docs = match load_documents(text) {
        Ok(d) => d,
        Err(e) => return Err(e),
    };
    let ghost pd = parsed_documents(text@)->Ok_0;
    let mut out: Vec<YamlValue> = Vec::new();
    let mut i: usize = 0;
    while i < docs.len()
        invariant
            i <= docs@.len(),
            docs@.map_values(|y: Yaml| node_model(y)) == pd,
            out@.len() == i,
            forall|j: int| 0 <= j < i ==> (#[trigger] out@[j]).model() == pd[j] && well_formed(out@[j].model()),
        decreases docs.len() - i,
    {
        proof {
            assert(pd[i as int] == node_model(docs@[i as int]));
        }
        out.push(value_from_yaml(&docs[i]));
        i = i + 1;
    }
    proof {
        assert(crate::yaml::items_model(out@) =~= pd);
    }
    Ok(out)
}

/// The last document that a schema text parses to (`None` when it holds
/// no document), or why the text does not scan.
pub fn schema_from_text(text: &str) -> (r: Result<Option<YamlValue>, ScanFailure>)
    ensures
        r is Ok == parsed_documents(text@) is Ok,
        r matches Err(e) ==> e@ == parsed_documents(text@)->Err_0,
        r matches Ok(o) ==> (o is Some == last_document(text@) is Some),
        r matches Ok(o) ==> (o matches Some(v) ==> Some(v.model()) == last_document(text@) && well_formed(
            v.model(),
        )),
{
    let docs = match load_documents(text) {
        Ok(d) => d,
        Err(e) => return Err(e),
    };
    let n = docs.len();
    if n == 0 {
        return Ok(None);
    }
    proof {
        let pd = parsed_documents(text@)->Ok_0;
        assert(pd[n - 1] == node_model(docs@[n - 1]));
    }
    Ok(Some(value_from_yaml(&docs[n - 1])))
}

} // verus!
