//! Cleaning a CloudFormation template: within each resource, of every set
//! of mutually exclusive properties (as the resource type's schema declares
//! them under `dependentExcluded`), only one property is kept.

use crate::naming::{schema_file_name, type_to_filename};
use crate::union_find::{law_merge_joins, law_merge_only_joins, merged, UnionFind};
use crate::parse::lemma_mapping_well_formed;
use crate::yaml::{entries_model, lookup_text, mapping_get, well_formed, YamlModel, YamlValue};
use std::collections::HashMap;
use vstd::std_specs::iter::IteratorSpec;
use vstd::prelude::*;

verus! {

broadcast use vstd::std_specs::hash::group_hash_axioms;

/// The string of a string node (empty for any other node).
pub open spec fn text_of(m: YamlModel) -> Seq<char> {
    match m {
        YamlModel::Text(t) => t,
        _ => Seq::empty(),
    }
}

/// The entries of a mapping node (empty for any other node).
pub open spec fn mapping_of(m: YamlModel) -> Seq<(YamlModel, YamlModel)> {
    match m {
        YamlModel::Mapping(e) => e,
        _ => Seq::empty(),
    }
}

/// The `Properties` mapping of a resource, if the resource is a mapping
/// and has one.
pub open spec fn resource_properties(resource: YamlModel) -> Option<Seq<(YamlModel, YamlModel)>> {
    match resource {
        YamlModel::Mapping(m) => match lookup_text(m, "Properties"@) {
            Some(YamlModel::Mapping(p)) => Some(p),
            _ => None,
        },
        _ => None,
    }
}

/// The `Type` string of a resource, if the resource is a mapping and has
/// one.
pub open spec fn resource_type_of(resource: YamlModel) -> Option<Seq<char>> {
    match resource {
        YamlModel::Mapping(m) => match lookup_text(m, "Type"@) {
            Some(YamlModel::Text(t)) => Some(t),
            _ => None,
        },
        _ => None,
    }
}

/// The `Properties` mapping of a resource (`None` when the resource is not
/// a mapping, has no such key, or its value is not a mapping).
pub fn properties(resource: &YamlValue) -> (r: Option<&Vec<(YamlValue, YamlValue)>>)
    ensures
        r is Some == resource_properties(resource.model()) is Some,
        r matches Some(p) ==> resource_properties(resource.model()) == Some(entries_model(p@)),
{
    let m = match resource.as_mapping() {
        Some(m) => m,
        None => return None,
    };
    let v = match mapping_get(m, "Properties") {
        Some(v) => v,
        None => return None,
    };
    v.as_mapping()
}

/// The `Type` of a resource (`None` when the resource is not a mapping,
/// has no such key, or its value is not a string).
pub fn resource_type(resource: &YamlValue) -> (r: Option<&str>)
    ensures
        r is Some == resource_type_of(resource.model()) is Some,
        r matches Some(t) ==> resource_type_of(resource.model()) == Some(t@),
{
    let m = match resource.as_mapping() {
        Some(m) => m,
        None => return None,
    };
    let v = match mapping_get(m, "Type") {
        Some(v) => v,
        None => return None,
    };
    v.as_str()
}

/// The schemas available, by file name, as plain values.
pub open spec fn schemas_model(schemas: Seq<(String, YamlValue)>) -> Seq<(Seq<char>, YamlModel)> {
    Seq::new(schemas.len(), |i: int| (schemas[i].0@, schemas[i].1.model()))
}

/// The schema stored under the first entry named `name`.
pub open spec fn schema_named(schemas: Seq<(Seq<char>, YamlModel)>, name: Seq<char>) -> Option<
    YamlModel,
>
    decreases schemas.len(),
{
    if schemas.len() == 0 {
        None
    } else if schemas[0].0 == name {
        Some(schemas[0].1)
    } else {
        schema_named(schemas.drop_first(), name)
    }
}

/// The schema of a resource: the one stored under the file name of its
/// type, if both exist.
pub open spec fn resource_schema(
    resource: YamlModel,
    schemas: Seq<(Seq<char>, YamlModel)>,
) -> Option<YamlModel> {
    match resource_type_of(resource) {
        Some(t) => schema_named(schemas, schema_file_name(t)),
        None => None,
    }
}

/// The schema file that describes `resource`, found by its type.
pub fn schema_file_for(resource: &YamlValue) -> (r: Option<String>)
    ensures
        r is Some == resource_type_of(resource.model()) is Some,
        r matches Some(f) ==> f@ == schema_file_name(resource_type_of(resource.model())->0),
{
    match resource_type(resource) {
        Some(t) => Some(type_to_filename(t)),
        None => None,
    }
}

/// The schema of `resource`, among schemas given by file name: `None` when
/// the resource has no type or no schema is stored under its file name, a
/// resource that cannot be cleaned at all (`try_clean_template` and
/// `try_clean_template_text` then give `None`).
pub fn schema_for<'a>(resource: &YamlValue, schemas: &'a Vec<(String, YamlValue)>) -> (r: Option<
    &'a YamlValue,
>)
    ensures
        r is Some == resource_schema(resource.model(), schemas_model(schemas@)) is Some,
        r matches Some(s) ==> resource_schema(resource.model(), schemas_model(schemas@)) == Some(
            s.model(),
        ),
{
    let name = match schema_file_for(resource) {
        Some(n) => n,
        None => return None,
    };
    let ghost m = schemas_model(schemas@);
    let mut i: usize = 0;
    proof {
        assert(m.skip(0) =~= m);
    }
    while i < schemas.len()
        invariant
            i <= schemas@.len(),
            m == schemas_model(schemas@),
            resource_type_of(resource.model()) is Some,
            name@ == schema_file_name(resource_type_of(resource.model())->0),
            schema_named(m.skip(i as int), name@) == resource_schema(resource.model(), m),
        decreases schemas.len() - i,
    {
        proof {
            assert(m.skip(i as int)[0] == m[i as int]);
            assert(m.skip(i as int).drop_first() =~= m.skip(i + 1));
        }
        if schemas[i].0 == name {
            return Some(&schemas[i].1);
        }
        i = i + 1;
    }
    proof {
        assert(m.skip(i as int).len() == 0);
    }
    None
}

/// The property entries that a schema declares under `properties`.
pub open spec fn declared_properties(schema: Seq<(YamlModel, YamlModel)>) -> Seq<(YamlModel, YamlModel)> {
    match lookup_text(schema, "properties"@) {
        Some(YamlModel::Mapping(p)) => p,
        _ => Seq::empty(),
    }
}

/// The names of the properties that a schema declares.
pub open spec fn declared_names(schema: Seq<(YamlModel, YamlModel)>) -> Seq<Seq<char>> {
    declared_properties(schema).map_values(|e: (YamlModel, YamlModel)| text_of(e.0))
}

/// The entries of a schema's `dependentExcluded` mapping: each property
/// with the list of properties it excludes.
pub open spec fn exclusions(schema: Seq<(YamlModel, YamlModel)>) -> Seq<(YamlModel, YamlModel)> {
    match lookup_text(schema, "dependentExcluded"@) {
        Some(YamlModel::Mapping(d)) => d,
        _ => Seq::empty(),
    }
}

/// Every name in its own set.
pub open spec fn singletons(names: Seq<Seq<char>>) -> Map<Seq<char>, Seq<char>> {
    Map::new(|t: Seq<char>| names.contains(t), |t: Seq<char>| t)
}

/// The partition `m` after merging `prop` with each of `others`, in order.
pub open spec fn merge_list(m: Map<Seq<char>, Seq<char>>, prop: Seq<char>, others: Seq<YamlModel>) -> Map<
    Seq<char>,
    Seq<char>,
>
    decreases others.len(),
{
    if others.len() == 0 {
        m
    } else {
        merged(merge_list(m, prop, others.drop_last()), prop, text_of(others.last()))
    }
}

/// The partition `m` after merging, entry by entry, each property of `d`
/// with the properties it excludes.
pub open spec fn merge_exclusions(m: Map<Seq<char>, Seq<char>>, d: Seq<(YamlModel, YamlModel)>) -> Map<
    Seq<char>,
    Seq<char>,
>
    decreases d.len(),
{
    if d.len() == 0 {
        m
    } else {
        let before = merge_exclusions(m, d.drop_last());
        match d.last().1 {
            YamlModel::Array(others) => merge_list(before, text_of(d.last().0), others),
            _ => before,
        }
    }
}

/// The sets of mutually exclusive properties of a schema, each name mapped
/// to the representative of its set.
pub open spec fn exclusion_classes(schema: Seq<(YamlModel, YamlModel)>) -> Map<Seq<char>, Seq<char>> {
    merge_exclusions(singletons(declared_names(schema)), exclusions(schema))
}

/// A schema that the cleaning can use: it declares a `properties` mapping
/// with string keys, and its `dependentExcluded`, if present, maps declared
/// names to lists of declared names.
pub open spec fn schema_ok(schema: Seq<(YamlModel, YamlModel)>) -> bool {
    &&& lookup_text(schema, "properties"@) matches Some(YamlModel::Mapping(_))
    &&& forall|i: int|
        0 <= i < declared_properties(schema).len() ==> (#[trigger] declared_properties(schema)[i]).0 is Text
    &&& match lookup_text(schema, "dependentExcluded"@) {
        None => true,
        Some(YamlModel::Mapping(d)) => forall|i: int|
            0 <= i < d.len() ==> {
                &&& (#[trigger] d[i]).0 is Text
                &&& declared_names(schema).contains(text_of(d[i].0))
                &&& d[i].1 is Array
                &&& forall|j: int|
                    0 <= j < d[i].1->Array_0.len() ==> {
                        &&& (#[trigger] d[i].1->Array_0[j]) is Text
                        &&& declared_names(schema).contains(text_of(d[i].1->Array_0[j]))
                    }
            },
        Some(_) => false,
    }
}

/// Every property of `data` is named by a string that the schema declares.
pub open spec fn data_ok(data: Seq<(YamlModel, YamlModel)>, schema: Seq<(YamlModel, YamlModel)>) -> bool {
    forall|i: int|
        0 <= i < data.len() ==> {
            &&& (#[trigger] data[i]).0 is Text
            &&& declared_names(schema).contains(text_of(data[i].0))
        }
}

/// Entry `i` of `data` is the last one of its set of exclusive properties.
pub open spec fn last_of_its_set(
    data: Seq<(YamlModel, YamlModel)>,
    classes: Map<Seq<char>, Seq<char>>,
    i: int,
) -> bool {
    &&& 0 <= i < data.len()
    &&& forall|j: int|
        i < j < data.len() ==> classes[text_of(#[trigger] data[j].0)] != classes[text_of(data[i].0)]
}

/// `result` holds, each exactly once and in some order, the entries of
/// `data` that are the last of their set.
pub open spec fn is_exclusive_selection(
    data: Seq<(YamlModel, YamlModel)>,
    classes: Map<Seq<char>, Seq<char>>,
    result: Seq<(YamlModel, YamlModel)>,
) -> bool {
    exists|pos: Seq<int>|
        {
            &&& pos.len() == result.len()
            &&& pos.no_duplicates()
            &&& forall|k: int|
                0 <= k < pos.len() ==> last_of_its_set(data, classes, #[trigger] pos[k]) && result[k]
                    == data[pos[k]]
            &&& forall|i: int| last_of_its_set(data, classes, i) ==> pos.contains(i)
        }
}

/// No two properties that the cleaning keeps are mutually exclusive.
pub proof fn law_kept_properties_exclude_nothing(
    data: Seq<(YamlModel, YamlModel)>,
    classes: Map<Seq<char>, Seq<char>>,
    result: Seq<(YamlModel, YamlModel)>,
)
    requires
        is_exclusive_selection(data, classes, result),
    ensures
        forall|k1: int, k2: int|
            0 <= k1 < result.len() && 0 <= k2 < result.len() && k1 != k2 ==> classes[text_of(
                #[trigger] result[k1].0,
            )] != classes[text_of(#[trigger] result[k2].0)],
{
    let pos = choose|pos: Seq<int>|
        {
            &&& pos.len() == result.len()
            &&& pos.no_duplicates()
            &&& forall|k: int|
                0 <= k < pos.len() ==> last_of_its_set(data, classes, #[trigger] pos[k]) && result[k]
                    == data[pos[k]]
            &&& forall|i: int| last_of_its_set(data, classes, i) ==> pos.contains(i)
        };
    assert forall|k1: int, k2: int|
        0 <= k1 < result.len() && 0 <= k2 < result.len() && k1 != k2 implies classes[text_of(
        #[trigger] result[k1].0,
    )] != classes[text_of(#[trigger] result[k2].0)] by {
        assert(last_of_its_set(data, classes, pos[k1]));
        assert(last_of_its_set(data, classes, pos[k2]));
        assert(pos[k1] != pos[k2]);
        if pos[k1] < pos[k2] {
            assert(classes[text_of(data[pos[k2]].0)] != classes[text_of(data[pos[k1]].0)]);
        } else {
            assert(classes[text_of(data[pos[k1]].0)] != classes[text_of(data[pos[k2]].0)]);
        }
    }
}

/// Every entry at or after `i` of the set of entry `i` is followed by the
/// last entry of that set.
proof fn lemma_last_of_set_exists(data: Seq<(YamlModel, YamlModel)>, classes: Map<Seq<char>, Seq<char>>, i: int)
    requires
        0 <= i < data.len(),
    ensures
        exists|j: int|
            i <= j < data.len() && #[trigger] last_of_its_set(data, classes, j) && classes[text_of(
                data[j].0,
            )] == classes[text_of(data[i].0)],
    decreases data.len() - i,
{
    if last_of_its_set(data, classes, i) {
        assert(last_of_its_set(data, classes, i));
    } else {
        let j = choose|j: int|
            i < j < data.len() && classes[text_of(#[trigger] data[j].0)] == classes[text_of(data[i].0)];
        lemma_last_of_set_exists(data, classes, j);
        let k = choose|k: int|
            j <= k < data.len() && #[trigger] last_of_its_set(data, classes, k) && classes[text_of(
                data[k].0,
            )] == classes[text_of(data[j].0)];
        assert(i <= k < data.len());
    }
}

/// Every set of mutually exclusive properties present in the data keeps
/// one property: the cleaning drops no set entirely.
pub proof fn law_every_present_set_is_kept(
    data: Seq<(YamlModel, YamlModel)>,
    classes: Map<Seq<char>, Seq<char>>,
    result: Seq<(YamlModel, YamlModel)>,
    i: int,
)
    requires
        is_exclusive_selection(data, classes, result),
        0 <= i < data.len(),
    ensures
        exists|k: int|
            0 <= k < result.len() && classes[text_of(#[trigger] result[k].0)] == classes[text_of(
                data[i].0,
            )],
{
    let pos = choose|pos: Seq<int>|
        {
            &&& pos.len() == result.len()
            &&& pos.no_duplicates()
            &&& forall|k: int|
                0 <= k < pos.len() ==> last_of_its_set(data, classes, #[trigger] pos[k]) && result[k]
                    == data[pos[k]]
            &&& forall|i: int| last_of_its_set(data, classes, i) ==> pos.contains(i)
        };
    lemma_last_of_set_exists(data, classes, i);
    let j = choose|j: int|
        i <= j < data.len() && #[trigger] last_of_its_set(data, classes, j) && classes[text_of(
            data[j].0,
        )] == classes[text_of(data[i].0)];
    assert(pos.contains(j));
    let k = choose|k: int| 0 <= k < pos.len() && pos[k] == j;
    assert(last_of_its_set(data, classes, pos[k]));
    assert(result[k] == data[j]);
}

/// Every pair kept in `r1` is kept in `r2` too, when both are selections
/// from the same data with the same sets.
proof fn lemma_selection_within(
    data: Seq<(YamlModel, YamlModel)>,
    classes: Map<Seq<char>, Seq<char>>,
    r1: Seq<(YamlModel, YamlModel)>,
    r2: Seq<(YamlModel, YamlModel)>,
)
    requires
        is_exclusive_selection(data, classes, r1),
        is_exclusive_selection(data, classes, r2),
    ensures
        forall|e: (YamlModel, YamlModel)| r1.contains(e) ==> r2.contains(e),
{
    let pos1 = choose|pos: Seq<int>|
        {
            &&& pos.len() == r1.len()
            &&& pos.no_duplicates()
            &&& forall|k: int|
                0 <= k < pos.len() ==> last_of_its_set(data, classes, #[trigger] pos[k]) && r1[k]
                    == data[pos[k]]
            &&& forall|i: int| last_of_its_set(data, classes, i) ==> pos.contains(i)
        };
    let pos2 = choose|pos: Seq<int>|
        {
            &&& pos.len() == r2.len()
            &&& pos.no_duplicates()
            &&& forall|k: int|
                0 <= k < pos.len() ==> last_of_its_set(data, classes, #[trigger] pos[k]) && r2[k]
                    == data[pos[k]]
            &&& forall|i: int| last_of_its_set(data, classes, i) ==> pos.contains(i)
        };
    assert forall|e: (YamlModel, YamlModel)| r1.contains(e) implies r2.contains(e) by {
        let k = choose|k: int| 0 <= k < r1.len() && r1[k] == e;
        assert(last_of_its_set(data, classes, pos1[k]));
        assert(pos2.contains(pos1[k]));
        let k2 = choose|k2: int| 0 <= k2 < pos2.len() && pos2[k2] == pos1[k];
        assert(last_of_its_set(data, classes, pos2[k2]));
        assert(r2[k2] == e);
    }
}

/// The cleaning is determined by the data and the sets of exclusive
/// properties: any two of its results hold the same (name, value) pairs,
/// whatever order they come out in.
pub proof fn law_selection_is_unique(
    data: Seq<(YamlModel, YamlModel)>,
    classes: Map<Seq<char>, Seq<char>>,
    r1: Seq<(YamlModel, YamlModel)>,
    r2: Seq<(YamlModel, YamlModel)>,
)
    requires
        is_exclusive_selection(data, classes, r1),
        is_exclusive_selection(data, classes, r2),
    ensures
        forall|e: (YamlModel, YamlModel)| r1.contains(e) <==> r2.contains(e),
{
    lemma_selection_within(data, classes, r1, r2);
    lemma_selection_within(data, classes, r2, r1);
}

/// Cleaning what the cleaning kept changes nothing: the second result
/// holds the same (name, value) pairs as the first.
pub proof fn law_cleaning_twice_keeps_the_pairs(
    data: Seq<(YamlModel, YamlModel)>,
    classes: Map<Seq<char>, Seq<char>>,
    r1: Seq<(YamlModel, YamlModel)>,
    r2: Seq<(YamlModel, YamlModel)>,
)
    requires
        is_exclusive_selection(data, classes, r1),
        is_exclusive_selection(r1, classes, r2),
    ensures
        forall|e: (YamlModel, YamlModel)| r1.contains(e) <==> r2.contains(e),
{
    law_kept_properties_exclude_nothing(data, classes, r1);
    let pos2 = choose|pos: Seq<int>|
        {
            &&& pos.len() == r2.len()
            &&& pos.no_duplicates()
            &&& forall|k: int|
                0 <= k < pos.len() ==> last_of_its_set(r1, classes, #[trigger] pos[k]) && r2[k]
                    == r1[pos[k]]
            &&& forall|i: int| last_of_its_set(r1, classes, i) ==> pos.contains(i)
        };
    assert forall|e: (YamlModel, YamlModel)| r1.contains(e) implies r2.contains(e) by {
        let k = choose|k: int| 0 <= k < r1.len() && r1[k] == e;
        assert forall|j: int| k < j < r1.len() implies classes[text_of(#[trigger] r1[j].0)]
            != classes[text_of(r1[k].0)] by {
            assert(classes[text_of(r1[j].0)] != classes[text_of(r1[k].0)]);
        }
        assert(last_of_its_set(r1, classes, k));
        assert(pos2.contains(k));
        let k2 = choose|k2: int| 0 <= k2 < pos2.len() && pos2[k2] == k;
        assert(last_of_its_set(r1, classes, pos2[k2]));
        assert(r2[k2] == e);
    }
    assert forall|e: (YamlModel, YamlModel)| r2.contains(e) implies r1.contains(e) by {
        let k = choose|k: int| 0 <= k < r2.len() && r2[k] == e;
        assert(last_of_its_set(r1, classes, pos2[k]));
        assert(r1[pos2[k]] == e);
    }
}

/// Merging keeps the set of names.
proof fn lemma_merge_list_dom(m: Map<Seq<char>, Seq<char>>, prop: Seq<char>, others: Seq<YamlModel>)
    ensures
        merge_list(m, prop, others).dom() == m.dom(),
    decreases others.len(),
{
    if others.len() > 0 {
        lemma_merge_list_dom(m, prop, others.drop_last());
        let before = merge_list(m, prop, others.drop_last());
        assert(merged(before, prop, text_of(others.last())).dom() =~= before.dom());
    }
}

/// Merging keeps the set of names.
proof fn lemma_merge_exclusions_dom(m: Map<Seq<char>, Seq<char>>, d: Seq<(YamlModel, YamlModel)>)
    ensures
        merge_exclusions(m, d).dom() == m.dom(),
    decreases d.len(),
{
    if d.len() > 0 {
        lemma_merge_exclusions_dom(m, d.drop_last());
        let before = merge_exclusions(m, d.drop_last());
        match d.last().1 {
            YamlModel::Array(others) => lemma_merge_list_dom(before, text_of(d.last().0), others),
            _ => {},
        }
    }
}

/// In the entries `d` of a `dependentExcluded` mapping, property `a` lists
/// property `b` among those it excludes.
pub open spec fn is_link(d: Seq<(YamlModel, YamlModel)>, a: Seq<char>, b: Seq<char>) -> bool {
    exists|i: int, j: int|
        #![trigger d[i].1->Array_0[j]]
        0 <= i < d.len() && d[i].1 is Array && 0 <= j < d[i].1->Array_0.len() && text_of(d[i].0) == a
            && text_of(d[i].1->Array_0[j]) == b
}

/// `rel` is an equivalence relation on `names` that relates every pair
/// linked in `d`.
pub open spec fn closes_links(
    names: Seq<Seq<char>>,
    d: Seq<(YamlModel, YamlModel)>,
    rel: spec_fn(Seq<char>, Seq<char>) -> bool,
) -> bool {
    &&& forall|x: Seq<char>| names.contains(x) ==> #[trigger] rel(x, x)
    &&& forall|x: Seq<char>, y: Seq<char>| #[trigger] rel(x, y) ==> rel(y, x)
    &&& forall|x: Seq<char>, y: Seq<char>, z: Seq<char>|
        #[trigger] rel(x, y) && #[trigger] rel(y, z) ==> rel(x, z)
    &&& forall|a: Seq<char>, b: Seq<char>| #[trigger] is_link(d, a, b) ==> rel(a, b)
}

/// Every property named in the entries `d` is in `dom`.
spec fn links_in(d: Seq<(YamlModel, YamlModel)>, dom: Set<Seq<char>>) -> bool {
    forall|i: int|
        0 <= i < d.len() ==> {
            &&& dom.contains(text_of(#[trigger] d[i].0))
            &&& d[i].1 is Array ==> forall|j: int|
                0 <= j < d[i].1->Array_0.len() ==> dom.contains(text_of(#[trigger] d[i].1->Array_0[j]))
        }
}

/// Merging `prop` with each of `others` puts them all in one set, and
/// keeps together what was together.
proof fn lemma_list_joins(m: Map<Seq<char>, Seq<char>>, prop: Seq<char>, others: Seq<YamlModel>)
    requires
        m.contains_key(prop),
        forall|j: int| 0 <= j < others.len() ==> m.contains_key(text_of(#[trigger] others[j])),
    ensures
        merge_list(m, prop, others).dom() == m.dom(),
        forall|j: int|
            0 <= j < others.len() ==> merge_list(m, prop, others)[prop] == merge_list(m, prop, others)[text_of(
                #[trigger] others[j],
            )],
        forall|x: Seq<char>, y: Seq<char>|
            m.contains_key(x) && m.contains_key(y) && m[x] == m[y] ==> #[trigger] merge_list(m, prop, others)[x]
                == #[trigger] merge_list(m, prop, others)[y],
    decreases others.len(),
{
    lemma_merge_list_dom(m, prop, others);
    if others.len() > 0 {
        let front = others.drop_last();
        assert forall|j: int| 0 <= j < front.len() implies m.contains_key(text_of(#[trigger] front[j])) by {
            assert(front[j] == others[j]);
        }
        lemma_list_joins(m, prop, front);
        let m1 = merge_list(m, prop, front);
        let o = text_of(others.last());
        assert(m.contains_key(text_of(others[others.len() - 1])));
        law_merge_joins(m1, prop, o);
        assert forall|j: int| 0 <= j < others.len() implies merge_list(m, prop, others)[prop] == merge_list(
            m,
            prop,
            others,
        )[text_of(#[trigger] others[j])] by {
            if j < others.len() - 1 {
                assert(front[j] == others[j]);
                law_merge_only_joins(m1, prop, o, prop, text_of(others[j]));
            }
        }
        assert forall|x: Seq<char>, y: Seq<char>|
            m.contains_key(x) && m.contains_key(y) && m[x] == m[y] implies #[trigger] merge_list(
            m,
            prop,
            others,
        )[x] == #[trigger] merge_list(m, prop, others)[y] by {
            assert(m1[x] == m1[y]);
            law_merge_only_joins(m1, prop, o, x, y);
        }
    }
}

/// After merging along the entries `d`, every linked pair shares a set.
proof fn lemma_links_joined(m: Map<Seq<char>, Seq<char>>, d: Seq<(YamlModel, YamlModel)>)
    requires
        links_in(d, m.dom()),
    ensures
        merge_exclusions(m, d).dom() == m.dom(),
        forall|a: Seq<char>, b: Seq<char>|
            is_link(d, a, b) ==> #[trigger] merge_exclusions(m, d)[a] == #[trigger] merge_exclusions(m, d)[b],
    decreases d.len(),
{
    lemma_merge_exclusions_dom(m, d);
    if d.len() > 0 {
        let front = d.drop_last();
        assert forall|i: int| 0 <= i < front.len() implies {
            &&& m.dom().contains(text_of(#[trigger] front[i].0))
            &&& front[i].1 is Array ==> forall|j: int|
                0 <= j < front[i].1->Array_0.len() ==> m.dom().contains(text_of(#[trigger] front[i].1->Array_0[j]))
        } by {
            assert(front[i] == d[i]);
        }
        lemma_links_joined(m, front);
        let before = merge_exclusions(m, front);
        lemma_merge_exclusions_dom(m, front);
        let last = d[d.len() - 1];
        assert(last == d.last());
        match last.1 {
            YamlModel::Array(others) => {
                assert(m.dom().contains(text_of(last.0)));
                assert forall|j: int| 0 <= j < others.len() implies before.contains_key(
                    text_of(#[trigger] others[j]),
                ) by {
                    assert(others[j] == d[d.len() - 1].1->Array_0[j]);
                }
                lemma_list_joins(before, text_of(last.0), others);
                let after = merge_exclusions(m, d);
                assert(after == merge_list(before, text_of(last.0), others));
                assert forall|a: Seq<char>, b: Seq<char>| is_link(d, a, b) implies #[trigger] after[a]
                    == #[trigger] after[b] by {
                    let (i, j) = choose|i: int, j: int|
                        #![trigger d[i].1->Array_0[j]]
                        0 <= i < d.len() && d[i].1 is Array && 0 <= j < d[i].1->Array_0.len() && text_of(
                            d[i].0,
                        ) == a && text_of(d[i].1->Array_0[j]) == b;
                    assert(d[i].1->Array_0[j] == d[i].1->Array_0[j]);
                    if i == d.len() - 1 {
                        assert(others[j] == d[i].1->Array_0[j]);
                        assert(after[text_of(last.0)] == after[text_of(others[j])]);
                    } else {
                        assert(front[i] == d[i]);
                        assert(front[i].1->Array_0[j] == d[i].1->Array_0[j]);
                        assert(is_link(front, a, b));
                        assert(before[a] == before[b]);
                        assert(m.dom().contains(a) && m.dom().contains(b));
                    }
                }
            },
            _ => {
                assert forall|a: Seq<char>, b: Seq<char>| is_link(d, a, b) implies #[trigger] merge_exclusions(
                    m,
                    d,
                )[a] == #[trigger] merge_exclusions(m, d)[b] by {
                    let (i, j) = choose|i: int, j: int|
                        #![trigger d[i].1->Array_0[j]]
                        0 <= i < d.len() && d[i].1 is Array && 0 <= j < d[i].1->Array_0.len() && text_of(
                            d[i].0,
                        ) == a && text_of(d[i].1->Array_0[j]) == b;
                    assert(i != d.len() - 1);
                    assert(front[i] == d[i]);
                    assert(front[i].1->Array_0[j] == d[i].1->Array_0[j]);
                    assert(is_link(front, a, b));
                }
            },
        }
    }
}

/// Merging `prop` with each of `others` relates, in any relation that
/// already holds what `m` puts together and links `prop` to each of
/// `others`, only what that relation relates.
proof fn lemma_list_within(
    m: Map<Seq<char>, Seq<char>>,
    prop: Seq<char>,
    others: Seq<YamlModel>,
    rel: spec_fn(Seq<char>, Seq<char>) -> bool,
)
    requires
        m.contains_key(prop),
        forall|j: int|
            0 <= j < others.len() ==> m.contains_key(text_of(#[trigger] others[j])) && rel(
                prop,
                text_of(others[j]),
            ),
        forall|x: Seq<char>, y: Seq<char>|
            m.contains_key(x) && m.contains_key(y) && m[x] == m[y] ==> #[trigger] rel(x, y),
        forall|x: Seq<char>, y: Seq<char>| #[trigger] rel(x, y) ==> rel(y, x),
        forall|x: Seq<char>, y: Seq<char>, z: Seq<char>|
            #[trigger] rel(x, y) && #[trigger] rel(y, z) ==> rel(x, z),
    ensures
        forall|x: Seq<char>, y: Seq<char>|
            m.contains_key(x) && m.contains_key(y) && merge_list(m, prop, others)[x] == merge_list(
                m,
                prop,
                others,
            )[y] ==> #[trigger] rel(x, y),
    decreases others.len(),
{
    if others.len() > 0 {
        let front = others.drop_last();
        assert forall|j: int| 0 <= j < front.len() implies m.contains_key(text_of(#[trigger] front[j])) && rel(
            prop,
            text_of(front[j]),
        ) by {
            assert(front[j] == others[j]);
        }
        lemma_list_within(m, prop, front, rel);
        lemma_merge_list_dom(m, prop, front);
        let m1 = merge_list(m, prop, front);
        let o = text_of(others.last());
        assert(others.last() == others[others.len() - 1]);
        assert(m.contains_key(o) && rel(prop, o));
        assert forall|x: Seq<char>, y: Seq<char>|
            m.contains_key(x) && m.contains_key(y) && merge_list(m, prop, others)[x] == merge_list(
                m,
                prop,
                others,
            )[y] implies #[trigger] rel(x, y) by {
            let m2 = merged(m1, prop, o);
            assert(merge_list(m, prop, others) == m2);
            if m1[x] == m1[prop] && m1[y] == m1[prop] {
                assert(rel(x, prop));
                assert(rel(prop, y));
            } else if m1[x] == m1[prop] {
                assert(m1[o] == m1[y]);
                assert(rel(x, prop));
                assert(rel(o, y));
                assert(rel(x, o));
            } else if m1[y] == m1[prop] {
                assert(m1[x] == m1[o]);
                assert(rel(y, prop));
                assert(rel(x, o));
                assert(rel(o, prop));
                assert(rel(prop, y));
                assert(rel(o, y));
            } else {
                assert(m1[x] == m1[y]);
            }
        }
    }
}

/// Merging along the entries `d` relates, in any relation that holds what
/// `m` puts together and every linked pair, only what that relation
/// relates.
proof fn lemma_exclusions_within(
    m: Map<Seq<char>, Seq<char>>,
    d: Seq<(YamlModel, YamlModel)>,
    rel: spec_fn(Seq<char>, Seq<char>) -> bool,
)
    requires
        links_in(d, m.dom()),
        forall|a: Seq<char>, b: Seq<char>| #[trigger] is_link(d, a, b) ==> rel(a, b),
        forall|x: Seq<char>, y: Seq<char>|
            m.contains_key(x) && m.contains_key(y) && m[x] == m[y] ==> #[trigger] rel(x, y),
        forall|x: Seq<char>, y: Seq<char>| #[trigger] rel(x, y) ==> rel(y, x),
        forall|x: Seq<char>, y: Seq<char>, z: Seq<char>|
            #[trigger] rel(x, y) && #[trigger] rel(y, z) ==> rel(x, z),
    ensures
        forall|x: Seq<char>, y: Seq<char>|
            m.contains_key(x) && m.contains_key(y) && merge_exclusions(m, d)[x] == merge_exclusions(m, d)[y]
                ==> #[trigger] rel(x, y),
    decreases d.len(),
{
    if d.len() > 0 {
        let front = d.drop_last();
        assert forall|i: int| 0 <= i < front.len() implies {
            &&& m.dom().contains(text_of(#[trigger] front[i].0))
            &&& front[i].1 is Array ==> forall|j: int|
                0 <= j < front[i].1->Array_0.len() ==> m.dom().contains(text_of(#[trigger] front[i].1->Array_0[j]))
        } by {
            assert(front[i] == d[i]);
        }
        assert forall|a: Seq<char>, b: Seq<char>| #[trigger] is_link(front, a, b) implies rel(a, b) by {
            let (i, j) = choose|i: int, j: int|
                #![trigger front[i].1->Array_0[j]]
                0 <= i < front.len() && front[i].1 is Array && 0 <= j < front[i].1->Array_0.len() && text_of(
                    front[i].0,
                ) == a && text_of(front[i].1->Array_0[j]) == b;
            assert(front[i] == d[i]);
            assert(d[i].1->Array_0[j] == front[i].1->Array_0[j]);
            assert(is_link(d, a, b));
        }
        lemma_exclusions_within(m, front, rel);
        lemma_merge_exclusions_dom(m, front);
        let before = merge_exclusions(m, front);
        let last = d[d.len() - 1];
        assert(last == d.last());
        match last.1 {
            YamlModel::Array(others) => {
                assert(m.dom().contains(text_of(last.0)));
                assert forall|j: int| 0 <= j < others.len() implies before.contains_key(
                    text_of(#[trigger] others[j]),
                ) && rel(text_of(last.0), text_of(others[j])) by {
                    assert(others[j] == d[d.len() - 1].1->Array_0[j]);
                    assert(is_link(d, text_of(last.0), text_of(others[j])));
                }
                lemma_list_within(before, text_of(last.0), others, rel);
                assert(merge_exclusions(m, d) == merge_list(before, text_of(last.0), others));
            },
            _ => {},
        }
    }
}

/// The sets of mutually exclusive properties are the smallest grouping
/// that the `dependentExcluded` links force: two declared properties share
/// a set exactly when every equivalence relation on the declared names
/// that relates each property to those it excludes relates them, that is,
/// when a chain of links, in either direction, joins them.
pub proof fn law_classes_close_the_links(
    schema: Seq<(YamlModel, YamlModel)>,
    x: Seq<char>,
    y: Seq<char>,
)
    requires
        schema_ok(schema),
        declared_names(schema).contains(x),
        declared_names(schema).contains(y),
    ensures
        (exclusion_classes(schema)[x] == exclusion_classes(schema)[y]) <==> (forall|
            rel: spec_fn(Seq<char>, Seq<char>) -> bool,
        | #[trigger] closes_links(declared_names(schema), exclusions(schema), rel) ==> rel(x, y)),
{
    let names = declared_names(schema);
    let d = exclusions(schema);
    let m0 = singletons(names);
    let classes = exclusion_classes(schema);
    assert(links_in(d, m0.dom())) by {
        assert forall|i: int| 0 <= i < d.len() implies {
            &&& m0.dom().contains(text_of(#[trigger] d[i].0))
            &&& d[i].1 is Array ==> forall|j: int|
                0 <= j < d[i].1->Array_0.len() ==> m0.dom().contains(text_of(#[trigger] d[i].1->Array_0[j]))
        } by {
            assert(d[i].1 is Array);
            assert forall|j: int| 0 <= j < d[i].1->Array_0.len() implies m0.dom().contains(
                text_of(#[trigger] d[i].1->Array_0[j]),
            ) by {
                assert(names.contains(text_of(d[i].1->Array_0[j])));
            }
        }
    }
    lemma_links_joined(m0, d);
    let same = |a: Seq<char>, b: Seq<char>| classes[a] == classes[b];
    assert(closes_links(names, d, same)) by {
        assert forall|a: Seq<char>, b: Seq<char>| #[trigger] is_link(d, a, b) implies same(a, b) by {
            assert(classes[a] == classes[b]);
        }
    }
    assert forall|rel: spec_fn(Seq<char>, Seq<char>) -> bool|
        #[trigger] closes_links(names, d, rel) && classes[x] == classes[y] implies rel(x, y) by {
        assert forall|a: Seq<char>, b: Seq<char>|
            m0.contains_key(a) && m0.contains_key(b) && m0[a] == m0[b] implies #[trigger] rel(a, b) by {
            assert(names.contains(a));
            assert(rel(a, a));
        }
        lemma_exclusions_within(m0, d, rel);
        assert(m0.contains_key(x) && m0.contains_key(y));
    }
    if forall|rel: spec_fn(Seq<char>, Seq<char>) -> bool| #[trigger]
        closes_links(names, d, rel) ==> rel(x, y) {
        assert(same(x, y));
    }
}

/// The string of a node known to be a string.
fn text_value(v: &YamlValue) -> (r: &str)
    requires
        v.model() is Text,
    ensures
        v.model() == YamlModel::Text(r@),
{
    match v.as_str() {
        Some(s) => s,
        None => {
            proof {
                assert(false);
            }
            ""
        },
    }
}

/// The names of the declared properties, in order.
fn declared_name_list(props: &Vec<(YamlValue, YamlValue)>) -> (r: Vec<String>)
    requires
        forall|i: int| 0 <= i < props@.len() ==> (#[trigger] props@[i]).0.model() is Text,
    ensures
        r@.len() == props@.len(),
        forall|i: int| 0 <= i < r@.len() ==> (#[trigger] r@[i])@ == text_of(props@[i].0.model()),
{
    let mut names: Vec<String> = Vec::new();
    let mut i: usize = 0;
    while i < props.len()
        invariant
            i <= props@.len(),
            forall|k: int| 0 <= k < props@.len() ==> (#[trigger] props@[k]).0.model() is Text,
            names@.len() == i,
            forall|k: int| 0 <= k < i ==> (#[trigger] names@[k])@ == text_of(props@[k].0.model()),
        decreases props.len() - i,
    {
        let name = text_value(&props[i].0).to_owned();
        names.push(name);
        i = i + 1;
    }
    names
}

/// The union-find of the schema's sets of mutually exclusive properties.
fn build_classes(schema: &Vec<(YamlValue, YamlValue)>) -> (uf: UnionFind)
    requires
        schema_ok(entries_model(schema@)),
    ensures
        uf.wf(),
        uf@ == exclusion_classes(entries_model(schema@)),
{
    let ghost sm = entries_model(schema@);
    let props = match mapping_get(schema, "properties") {
        Some(p) => match p.as_mapping() {
            Some(m) => m,
            None => {
                proof {
                    assert(false);
                }
                return UnionFind::from_iter(Vec::new());
            },
        },
        None => {
            proof {
                assert(false);
            }
            return UnionFind::from_iter(Vec::new());
        },
    };
    proof {
        assert(entries_model(props@) == declared_properties(sm));
        assert forall|i: int| 0 <= i < props@.len() implies (#[trigger] props@[i]).0.model() is Text by {
            assert(declared_properties(sm)[i] == (props@[i].0.model(), props@[i].1.model()));
        }
    }
    let names = declared_name_list(props);
    let mut uf = UnionFind::from_iter(names);
    let ghost init = singletons(declared_names(sm));
    proof {
        assert forall|t: Seq<char>| #[trigger] uf@.contains_key(t) <==> init.contains_key(t) by {
            if uf@.contains_key(t) {
                let j = choose|j: int| 0 <= j < names@.len() && names@[j]@ == t;
                assert(declared_names(sm)[j] == t);
            }
            if init.contains_key(t) {
                let j = choose|j: int| 0 <= j < declared_names(sm).len() && declared_names(sm)[j] == t;
                assert(names@[j]@ == t);
            }
        }
        assert(uf@ =~= init);
    }
    let dep = match mapping_get(schema, "dependentExcluded") {
        Some(d) => d,
        None => {
            proof {
                assert(exclusions(sm) =~= Seq::<(YamlModel, YamlModel)>::empty());
            }
            return uf;
        },
    };
    let d = match dep.as_mapping() {
        Some(d) => d,
        None => {
            proof {
                assert(false);
            }
            return uf;
        },
    };
    let ghost dm = entries_model(d@);
    proof {
        assert(exclusions(sm) == dm);
        assert(lookup_text(sm, "dependentExcluded"@) == Some(YamlModel::Mapping(dm)));
        assert(dm.take(0) =~= Seq::<(YamlModel, YamlModel)>::empty());
    }
    let mut i: usize = 0;
    while i < d.len()
        invariant
            i <= d@.len(),
            sm == entries_model(schema@),
            schema_ok(sm),
            dm == entries_model(d@),
            exclusions(sm) == dm,
            lookup_text(sm, "dependentExcluded"@) == Some(YamlModel::Mapping(dm)),
            init == singletons(declared_names(sm)),
            uf.wf(),
            uf@ == merge_exclusions(init, dm.take(i as int)),
        decreases d.len() - i,
    {
        proof {
            assert(dm[i as int] == (d@[i as int].0.model(), d@[i as int].1.model()));
        }
        let prop = text_value(&d[i].0);
        let others = match d[i].1.as_array() {
            Some(o) => o,
            None => {
                proof {
                    assert(dm[i as int] == (d@[i as int].0.model(), d@[i as int].1.model()));
                    assert(false);
                }
                return uf;
            },
        };
        let ghost before = uf@;
        let ghost om = crate::yaml::items_model(others@);
        proof {
            assert(dm[i as int] == (d@[i as int].0.model(), d@[i as int].1.model()));
            assert(d@[i as int].1.model() == YamlModel::Array(om));
            assert(om.take(0) =~= Seq::<YamlModel>::empty());
            assert forall|k: int| 0 <= k < om.len() implies (#[trigger] om[k]) is Text && init.contains_key(text_of(om[k])) by {
                assert(dm[i as int].1->Array_0[k] == om[k]);
            }
            lemma_merge_exclusions_dom(init, dm.take(i as int));
        }
        let mut j: usize = 0;
        while j < others.len()
            invariant
                j <= others@.len(),
                om == crate::yaml::items_model(others@),
                uf.wf(),
                uf@ == merge_list(before, prop@, om.take(j as int)),
                before.dom() == init.dom(),
                init.contains_key(prop@),
                forall|k: int| 0 <= k < om.len() ==> (#[trigger] om[k]) is Text && init.contains_key(text_of(om[k])),
            decreases others.len() - j,
        {
            let other = text_value(&others[j]);
            proof {
                lemma_merge_list_dom(before, prop@, om.take(j as int));
                assert(om[j as int] == others@[j as int].model());
                assert(om.take(j + 1).drop_last() =~= om.take(j as int));
            }
            match uf.union(prop, other) {
                Ok(()) => {},
                Err(_) => {
                    proof {
                        assert(false);
                    }
                },
            }
            j = j + 1;
        }
        proof {
            assert(om.take(j as int) =~= om);
            assert(dm.take(i + 1).drop_last() =~= dm.take(i as int));
            assert(dm.take(i + 1).last() == dm[i as int]);
        }
        i = i + 1;
    }
    proof {
        assert(dm.take(i as int) =~= dm);
    }
    uf
}

/// The values of a hash map, in the map's iteration order.
fn hash_map_values(m: &HashMap<usize, usize>) -> (r: Vec<usize>)
    ensures
        r@.to_set() == m@.values(),
        r@.len() == m@.dom().len(),
{
    let ghost s = vstd::std_specs::hash::spec_values_iter(m).remaining().unref();
    let mut out: Vec<usize> = Vec::new();
    for v in it: m.values()
        invariant
            s == vstd::std_specs::hash::spec_values_iter(m).remaining().unref(),
            it.seq().unref() == s,
            out@ == s.take(it.index() as int),
    {
        proof {
            assert(s.take(it.index() as int).push(*v) =~= s.take(it.index() + 1));
        }
        out.push(*v);
    }
    proof {
        assert(out@ =~= s);
    }
    out
}

/// The name of the key of entry `j` of a mapping.
pub open spec fn key_name(data: Seq<(YamlModel, YamlModel)>, j: int) -> Seq<char> {
    text_of(data[j].0)
}

/// For each set (by root index) that a property of `data` belongs to, the
/// position of the last such property.
fn last_positions(uf: &mut UnionFind, data: &Vec<(YamlValue, YamlValue)>) -> (m: HashMap<
    usize,
    usize,
>)
    requires
        old(uf).wf(),
        forall|i: int|
            0 <= i < data@.len() ==> {
                &&& (#[trigger] data@[i]).0.model() is Text
                &&& old(uf)@.contains_key(text_of(data@[i].0.model()))
            },
    ensures
        final(uf).wf(),
        final(uf)@ == old(uf)@,
        final(uf).root_indices() == old(uf).root_indices(),
        forall|x: usize| #[trigger]
            m@.contains_key(x) ==> {
                let p = m@[x] as int;
                &&& 0 <= p < data@.len()
                &&& old(uf).root_indices()[key_name(entries_model(data@), p)] == x as int
                &&& forall|j: int|
                    p < j < data@.len() ==> old(uf).root_indices()[key_name(
                        entries_model(data@),
                        j,
                    )] != x as int
            },
        forall|j: int|
            #![trigger key_name(entries_model(data@), j)]
            0 <= j < data@.len() ==> {
                let x = old(uf).root_indices()[key_name(entries_model(data@), j)];
                &&& 0 <= x <= usize::MAX
                &&& m@.contains_key(x as usize)
            },
{
    let ghost dm = entries_model(data@);
    let ghost roots = uf.root_indices();
    let mut m: HashMap<usize, usize> = HashMap::new();
    let mut i: usize = 0;
    while i < data.len()
        invariant
            i <= data@.len(),
            dm == entries_model(data@),
            uf.wf(),
            uf@ == old(uf)@,
            uf.root_indices() == roots,
            roots == old(uf).root_indices(),
            forall|k: int|
                0 <= k < data@.len() ==> {
                    &&& (#[trigger] data@[k]).0.model() is Text
                    &&& old(uf)@.contains_key(text_of(data@[k].0.model()))
                },
            forall|x: usize| #[trigger]
                m@.contains_key(x) ==> {
                    let p = m@[x] as int;
                    &&& 0 <= p < i
                    &&& roots[key_name(dm, p)] == x as int
                    &&& forall|j: int| p < j < i ==> roots[key_name(dm, j)] != x as int
                },
            forall|j: int|
                #![trigger key_name(dm, j)]
                0 <= j < i ==> {
                    let x = roots[key_name(dm, j)];
                    &&& 0 <= x <= usize::MAX
                    &&& m@.contains_key(x as usize)
                },
        decreases data.len() - i,
    {
        let name = text_value(&data[i].0);
        proof {
            assert(key_name(dm, i as int) == name@);
        }
        let x = match uf.find_index(name) {
            Some(x) => x,
            None => {
                proof {
                    assert(false);
                }
                return m;
            },
        };
        m.insert(x, i);
        i = i + 1;
    }
    m
}

/// The positions that remain in the map of last positions are exactly
/// the entries that are the last of their set.
proof fn lemma_selection(
    dm: Seq<(YamlModel, YamlModel)>,
    classes: Map<Seq<char>, Seq<char>>,
    roots: Map<Seq<char>, int>,
    uf: UnionFind,
    last: Map<usize, usize>,
    positions: Seq<usize>,
    result: Seq<(YamlModel, YamlModel)>,
    pos: Seq<int>,
)
    requires
        uf.wf(),
        uf@ == classes,
        uf.root_indices() == roots,
        forall|i: int| 0 <= i < dm.len() ==> uf@.contains_key(#[trigger] key_name(dm, i)),
        forall|x: usize| #[trigger]
            last.contains_key(x) ==> {
                let p = last[x] as int;
                &&& 0 <= p < dm.len()
                &&& roots[key_name(dm, p)] == x as int
                &&& forall|j: int| p < j < dm.len() ==> roots[key_name(dm, j)] != x as int
            },
        forall|j: int|
            #![trigger key_name(dm, j)]
            0 <= j < dm.len() ==> {
                let x = roots[key_name(dm, j)];
                &&& 0 <= x <= usize::MAX
                &&& last.contains_key(x as usize)
            },
        last.dom().finite(),
        positions.to_set() == last.values(),
        positions.len() == last.dom().len(),
        result.len() == positions.len(),
        forall|q: int| 0 <= q < result.len() ==> #[trigger] result[q] == dm[positions[q] as int],
        pos == positions.map_values(|p: usize| p as int),
    ensures
        is_exclusive_selection(dm, classes, result),
{
    assert(last.is_injective()) by {
        assert forall|x1: usize, x2: usize|
            last.contains_key(x1) && last.contains_key(x2) && #[trigger] last[x1] == #[trigger] last[x2]
                implies x1 == x2 by {
            let p = last[x1] as int;
            assert(roots[key_name(dm, p)] == x1 as int);
            assert(roots[key_name(dm, p)] == x2 as int);
        }
    }
    last.lemma_injective_values_len();
    positions.lemma_no_dup_set_cardinality();
    assert(pos.no_duplicates()) by {
        assert forall|a: int, b: int| 0 <= a < b < pos.len() implies pos[a] != pos[b] by {
            assert(positions[a] != positions[b]);
        }
    }
    assert forall|k: int| 0 <= k < pos.len() implies last_of_its_set(dm, classes, #[trigger] pos[k])
        && result[k] == dm[pos[k]] by {
        let p = positions[k];
        assert(positions.to_set().contains(p));
        let x = choose|x: usize| #[trigger] last.contains_key(x) && last[x] == p;
        assert forall|j: int| (p as int) < j < dm.len() implies classes[text_of(
            #[trigger] dm[j].0,
        )] != classes[text_of(dm[p as int].0)] by {
            uf.lemma_same_set(key_name(dm, j), key_name(dm, p as int));
        }
    }
    assert forall|i: int| last_of_its_set(dm, classes, i) implies pos.contains(i) by {
        let x = roots[key_name(dm, i)];
        let q = last[x as usize] as int;
        if q < i {
            assert(roots[key_name(dm, i)] != x);
        } else if q > i {
            uf.lemma_same_set(key_name(dm, q), key_name(dm, i));
            assert(classes[text_of(dm[q].0)] != classes[text_of(dm[i].0)]);
        }
        assert(last.values().contains(q as usize));
        assert(positions.to_set().contains(q as usize));
        let k = choose|k: int| 0 <= k < positions.len() && positions[k] == q as usize;
        assert(pos[k] == i);
    }
    assert(pos.len() == result.len());
}

/// Keeps, of every set of mutually exclusive properties that `data` holds,
/// only the last one (in `data`'s order). The properties kept come out in
/// the order in which a hash map from sets to positions yields them.
pub fn remove_mutually_exclusive(
    data: &Vec<(YamlValue, YamlValue)>,
    schema: &Vec<(YamlValue, YamlValue)>,
) -> (r: Vec<(YamlValue, YamlValue)>)
    requires
        schema_ok(entries_model(schema@)),
        data_ok(entries_model(data@), entries_model(schema@)),
    ensures
        is_exclusive_selection(
            entries_model(data@),
            exclusion_classes(entries_model(schema@)),
            entries_model(r@),
        ),
{
    let ghost dm = entries_model(data@);
    let ghost sm = entries_model(schema@);
    let mut uf = build_classes(schema);
    let ghost classes = uf@;
    let ghost roots = uf.root_indices();
    proof {
        lemma_merge_exclusions_dom(singletons(declared_names(sm)), exclusions(sm));
        assert forall|i: int| 0 <= i < data@.len() implies {
            &&& (#[trigger] data@[i]).0.model() is Text
            &&& uf@.contains_key(text_of(data@[i].0.model()))
        } by {
            assert(dm[i] == (data@[i].0.model(), data@[i].1.model()));
        }
    }
    let last = last_positions(&mut uf, data);
    let positions = hash_map_values(&last);
    proof {
        assert forall|q: int| 0 <= q < positions@.len() implies (#[trigger] positions@[q] as int)
            < data@.len() by {
            assert(positions@.to_set().contains(positions@[q]));
            let x = choose|x: usize| #[trigger] last@.contains_key(x) && last@[x] == positions@[q];
        }
    }
    let mut out: Vec<(YamlValue, YamlValue)> = Vec::new();
    let mut k: usize = 0;
    while k < positions.len()
        invariant
            k <= positions@.len(),
            out@.len() == k,
            forall|x: usize| #[trigger]
                last@.contains_key(x) ==> (last@[x] as int) < data@.len(),
            positions@.to_set() == last@.values(),
            forall|q: int| 0 <= q < positions@.len() ==> (#[trigger] positions@[q] as int) < data@.len(),
            forall|q: int|
                0 <= q < k ==> (#[trigger] out@[q]).0.model() == data@[positions@[q] as int].0.model()
                    && out@[q].1.model() == data@[positions@[q] as int].1.model(),
        decreases positions.len() - k,
    {
        let p = positions[k];
        proof {
            assert(positions@.to_set().contains(p));
            let x = choose|x: usize| #[trigger] last@.contains_key(x) && last@[x] == p;
        }
        let key = data[p].0.deep_clone();
        let value = data[p].1.deep_clone();
        out.push((key, value));
        k = k + 1;
    }
    proof {
        let pos = positions@.map_values(|p: usize| p as int);
        assert forall|q: int| 0 <= q < out@.len() implies #[trigger] entries_model(out@)[q] == dm[positions@[q] as int] by {
        }
        lemma_selection(dm, classes, roots, uf, last@, positions@, entries_model(out@), pos);
    }
    out
}

/// A resource that can be cleaned with the given schemas: its type names
/// a schema that is a usable mapping, and its properties are a mapping
/// whose names that schema declares.
pub open spec fn resource_ok(resource: YamlModel, schemas: Seq<(Seq<char>, YamlModel)>) -> bool {
    &&& resource_schema(resource, schemas) matches Some(YamlModel::Mapping(sc))
    &&& resource_properties(resource) is Some
    &&& schema_ok(mapping_of(resource_schema(resource, schemas)->0))
    &&& data_ok(
        resource_properties(resource)->0,
        mapping_of(resource_schema(resource, schemas)->0),
    )
}

/// The value that `lookup_text` finds is the value of one of the entries.
proof fn lemma_lookup_text_entry(m: Seq<(YamlModel, YamlModel)>, k: Seq<char>)
    ensures
        lookup_text(m, k) matches Some(v) ==> exists|i: int| 0 <= i < m.len() && #[trigger] m[i].1 == v,
    decreases m.len(),
{
    if m.len() > 0 {
        if m[0].0 != YamlModel::Text(k) {
            lemma_lookup_text_entry(m.drop_first(), k);
            if lookup_text(m, k) is Some {
                let v = lookup_text(m, k)->0;
                let i = choose|i: int| 0 <= i < m.drop_first().len() && #[trigger] m.drop_first()[i].1 == v;
                assert(m[i + 1].1 == v);
            }
        } else {
            assert(m[0].1 == lookup_text(m, k)->0);
        }
    }
}

/// The properties of a well-formed resource are a well-formed mapping.
proof fn lemma_properties_well_formed(resource: YamlModel)
    requires
        well_formed(resource),
        resource_properties(resource) is Some,
    ensures
        well_formed(YamlModel::Mapping(resource_properties(resource)->0)),
{
    let m = mapping_of(resource);
    lemma_lookup_text_entry(m, "Properties"@);
    let i = choose|i: int| 0 <= i < m.len() && #[trigger] m[i].1 == lookup_text(m, "Properties"@)->0;
    assert(resource == YamlModel::Mapping(m));
    assert(well_formed(YamlModel::Mapping(m)));
    assert(well_formed(m[i].0));
}

/// A selection from a well-formed mapping is a well-formed mapping: its
/// entries come from the data, and no two of them share a set, let alone
/// a key.
proof fn lemma_selection_well_formed(
    data: Seq<(YamlModel, YamlModel)>,
    classes: Map<Seq<char>, Seq<char>>,
    r: Seq<(YamlModel, YamlModel)>,
)
    requires
        well_formed(YamlModel::Mapping(data)),
        is_exclusive_selection(data, classes, r),
    ensures
        well_formed(YamlModel::Mapping(r)),
{
    law_kept_properties_exclude_nothing(data, classes, r);
    let pos = choose|pos: Seq<int>|
        {
            &&& pos.len() == r.len()
            &&& pos.no_duplicates()
            &&& forall|k: int|
                0 <= k < pos.len() ==> last_of_its_set(data, classes, #[trigger] pos[k]) && r[k]
                    == data[pos[k]]
            &&& forall|i: int| last_of_its_set(data, classes, i) ==> pos.contains(i)
        };
    assert forall|i: int, j: int| 0 <= i < j < r.len() implies r[i].0 != r[j].0 by {
        assert(classes[text_of(r[i].0)] != classes[text_of(r[j].0)]);
    }
    assert forall|k: int| 0 <= k < r.len() implies #[trigger] well_formed(r[k].0) && well_formed(
        r[k].1,
    ) by {
        assert(last_of_its_set(data, classes, pos[k]));
        assert(r[k] == data[pos[k]]);
        assert(well_formed(data[pos[k]].0));
    }
    lemma_mapping_well_formed(YamlModel::Mapping(r));
}

/// Cleaned resources of a well-formed resource mapping form a well-formed
/// mapping.
proof fn lemma_cleaned_resources_well_formed(
    resources: Seq<(YamlModel, YamlModel)>,
    schemas: Seq<(Seq<char>, YamlModel)>,
    out: Seq<(YamlModel, YamlModel)>,
)
    requires
        well_formed(YamlModel::Mapping(resources)),
        forall|j: int| 0 <= j < resources.len() ==> resource_ok(#[trigger] resources[j].1, schemas),
        is_cleaned_resources(resources, schemas, out),
    ensures
        well_formed(YamlModel::Mapping(out)),
{
    assert forall|i: int, j: int| 0 <= i < j < out.len() implies out[i].0 != out[j].0 by {
        assert(out[i].0 == resources[i].0);
        assert(out[j].0 == resources[j].0);
    }
    assert forall|k: int| 0 <= k < out.len() implies #[trigger] well_formed(out[k].0) && well_formed(
        out[k].1,
    ) by {
        assert(out[k].0 == resources[k].0);
        assert(well_formed(resources[k].0));
        assert(resource_ok(resources[k].1, schemas));
        lemma_properties_well_formed(resources[k].1);
        lemma_selection_well_formed(
            resource_properties(resources[k].1)->0,
            exclusion_classes(mapping_of(resource_schema(resources[k].1, schemas)->0)),
            mapping_of(out[k].1),
        );
        assert(out[k].1 == YamlModel::Mapping(mapping_of(out[k].1)));
    }
    lemma_mapping_well_formed(YamlModel::Mapping(out));
}

/// Cleaning keeps a well-formed template well-formed: every mapping of the
/// result, the cleaned resources included, has distinct keys.
pub proof fn law_cleaned_template_well_formed(
    doc: YamlModel,
    schemas: Seq<(Seq<char>, YamlModel)>,
    out: YamlModel,
)
    requires
        well_formed(doc),
        template_ok(doc, schemas),
        is_cleaned_template(doc, schemas, out),
    ensures
        well_formed(out),
{
    let d = mapping_of(doc);
    let o = mapping_of(out);
    assert forall|i: int, j: int| 0 <= i < j < o.len() implies o[i].0 != o[j].0 by {
        assert(o[i].0 == d[i].0);
        assert(o[j].0 == d[j].0);
    }
    assert forall|k: int| 0 <= k < o.len() implies #[trigger] well_formed(o[k].0) && well_formed(
        o[k].1,
    ) by {
        assert(o[k].0 == d[k].0);
        assert(well_formed(d[k].0));
        if is_resources_key(d[k].0) {
            assert(d[k].1 == YamlModel::Mapping(mapping_of(d[k].1)));
            lemma_cleaned_resources_well_formed(mapping_of(d[k].1), schemas, mapping_of(o[k].1));
            assert(o[k].1 == YamlModel::Mapping(mapping_of(o[k].1)));
        }
    }
    assert(out == YamlModel::Mapping(o));
    lemma_mapping_well_formed(out);
}

/// The key of the section that holds the resources.
pub open spec fn is_resources_key(k: YamlModel) -> bool {
    k == YamlModel::Text("Resources"@)
}

/// A template that can be cleaned with the given schemas: a mapping whose
/// `Resources` section is a mapping of resources that can be cleaned.
pub open spec fn template_ok(doc: YamlModel, schemas: Seq<(Seq<char>, YamlModel)>) -> bool {
    &&& doc is Mapping
    &&& forall|i: int|
        0 <= i < mapping_of(doc).len() && is_resources_key(#[trigger] mapping_of(doc)[i].0) ==> {
            &&& mapping_of(doc)[i].1 is Mapping
            &&& forall|j: int|
                0 <= j < mapping_of(mapping_of(doc)[i].1).len() ==> resource_ok(
                    (#[trigger] mapping_of(mapping_of(doc)[i].1)[j]).1,
                    schemas,
                )
        }
}

/// `out` is `resources` with every resource replaced by its properties,
/// cleaned of mutually exclusive ones.
pub open spec fn is_cleaned_resources(
    resources: Seq<(YamlModel, YamlModel)>,
    schemas: Seq<(Seq<char>, YamlModel)>,
    out: Seq<(YamlModel, YamlModel)>,
) -> bool {
    &&& out.len() == resources.len()
    &&& forall|j: int|
        0 <= j < out.len() ==> {
            &&& (#[trigger] out[j]).0 == resources[j].0
            &&& out[j].1 is Mapping
            &&& is_exclusive_selection(
                resource_properties(resources[j].1)->0,
                exclusion_classes(mapping_of(resource_schema(resources[j].1, schemas)->0)),
                mapping_of(out[j].1),
            )
        }
}

/// `out` is the template `doc`, section by section, with its resources
/// cleaned and every other section unchanged.
pub open spec fn is_cleaned_template(
    doc: YamlModel,
    schemas: Seq<(Seq<char>, YamlModel)>,
    out: YamlModel,
) -> bool {
    &&& out is Mapping
    &&& mapping_of(out).len() == mapping_of(doc).len()
    &&& forall|i: int|
        0 <= i < mapping_of(out).len() ==> {
            &&& (#[trigger] mapping_of(out)[i]).0 == mapping_of(doc)[i].0
            &&& if is_resources_key(mapping_of(doc)[i].0) {
                &&& mapping_of(out)[i].1 is Mapping
                &&& is_cleaned_resources(
                    mapping_of(mapping_of(doc)[i].1),
                    schemas,
                    mapping_of(mapping_of(out)[i].1),
                )
            } else {
                mapping_of(out)[i].1 == mapping_of(doc)[i].1
            }
        }
}

/// Whether a key is the string `Resources`.
pub(crate) fn is_resources_section(k: &YamlValue) -> (r: bool)
    ensures
        r == is_resources_key(k.model()),
{
    match k {
        YamlValue::Text(s) => {
            let wanted = "Resources".to_owned();
            *s == wanted
        },
        _ => false,
    }
}

/// Each resource replaced by its cleaned properties.
fn clean_resources(resources: &Vec<(YamlValue, YamlValue)>, schemas: &Vec<(String, YamlValue)>) -> (r: Vec<
    (YamlValue, YamlValue),
>)
    requires
        forall|j: int|
            0 <= j < resources@.len() ==> resource_ok(
                (#[trigger] resources@[j]).1.model(),
                schemas_model(schemas@),
            ),
    ensures
        is_cleaned_resources(entries_model(resources@), schemas_model(schemas@), entries_model(r@)),
{
    let ghost sch = schemas_model(schemas@);
    let mut out: Vec<(YamlValue, YamlValue)> = Vec::new();
    let mut j: usize = 0;
    while j < resources.len()
        invariant
            j <= resources@.len(),
            sch == schemas_model(schemas@),
            forall|k: int|
                0 <= k < resources@.len() ==> resource_ok((#[trigger] resources@[k]).1.model(), sch),
            out@.len() == j,
            forall|k: int|
                0 <= k < j ==> {
                    &&& (#[trigger] out@[k]).0.model() == resources@[k].0.model()
                    &&& out@[k].1.model() is Mapping
                    &&& is_exclusive_selection(
                        resource_properties(resources@[k].1.model())->0,
                        exclusion_classes(mapping_of(resource_schema(resources@[k].1.model(), sch)->0)),
                        mapping_of(out@[k].1.model()),
                    )
                },
        decreases resources.len() - j,
    {
        let resource = &resources[j].1;
        let schema = match schema_for(resource, schemas) {
            Some(s) => s,
            None => {
                proof {
                    assert(resource_ok(resources@[j as int].1.model(), sch));
                    assert(false);
                }
                return out;
            },
        };
        let props = match properties(resource) {
            Some(p) => p,
            None => {
                proof {
                    assert(resource_ok(resources@[j as int].1.model(), sch));
                    assert(false);
                }
                return out;
            },
        };
        let schema_entries = match schema.as_mapping() {
            Some(m) => m,
            None => {
                proof {
                    assert(resource_ok(resources@[j as int].1.model(), sch));
                    assert(false);
                }
                return out;
            },
        };
        proof {
            assert(resource_ok(resources@[j as int].1.model(), sch));
        }
        let clean = remove_mutually_exclusive(props, schema_entries);
        let cleaned = YamlValue::Mapping(clean);
        proof {
            assert(cleaned.model()->Mapping_0 =~= entries_model(clean@));
        }
        let id = resources[j].0.deep_clone();
        out.push((id, cleaned));
        j = j + 1;
    }
    proof {
        let rm = entries_model(resources@);
        let om = entries_model(out@);
        assert forall|k: int| 0 <= k < om.len() implies {
            &&& (#[trigger] om[k]).0 == rm[k].0
            &&& om[k].1 is Mapping
            &&& is_exclusive_selection(
                resource_properties(rm[k].1)->0,
                exclusion_classes(mapping_of(resource_schema(rm[k].1, sch)->0)),
                mapping_of(om[k].1),
            )
        } by {
            assert(om[k] == (out@[k].0.model(), out@[k].1.model()));
            assert(rm[k] == (resources@[k].0.model(), resources@[k].1.model()));
        }
    }
    out
}

/// Cleans a template: every resource of its `Resources` section is
/// replaced by its properties, keeping of each set of mutually exclusive
/// properties only one; every other section is kept as it is.
pub fn clean_template(doc: &YamlValue, schemas: &Vec<(String, YamlValue)>) -> (r: YamlValue)
    requires
        template_ok(doc.model(), schemas_model(schemas@)),
    ensures
        is_cleaned_template(doc.model(), schemas_model(schemas@), r.model()),
{
    let ghost sch = schemas_model(schemas@);
    let sections = match doc.as_mapping() {
        Some(m) => m,
        None => {
            proof {
                assert(false);
            }
            return YamlValue::Null;
        },
    };
    let ghost dm = entries_model(sections@);
    let mut out: Vec<(YamlValue, YamlValue)> = Vec::new();
    let mut i: usize = 0;
    while i < sections.len()
        invariant
            i <= sections@.len(),
            sch == schemas_model(schemas@),
            dm == entries_model(sections@),
            doc.model() == YamlModel::Mapping(dm),
            template_ok(doc.model(), sch),
            out@.len() == i,
            forall|k: int|
                0 <= k < i ==> {
                    &&& (#[trigger] out@[k]).0.model() == dm[k].0
                    &&& if is_resources_key(dm[k].0) {
                        &&& out@[k].1.model() is Mapping
                        &&& is_cleaned_resources(mapping_of(dm[k].1), sch, mapping_of(out@[k].1.model()))
                    } else {
                        out@[k].1.model() == dm[k].1
                    }
                },
        decreases sections.len() - i,
    {
        proof {
            assert(dm[i as int] == (sections@[i as int].0.model(), sections@[i as int].1.model()));
        }
        let key = sections[i].0.deep_clone();
        if is_resources_section(&sections[i].0) {
            proof {
                assert(mapping_of(doc.model()) == dm);
                assert(is_resources_key(mapping_of(doc.model())[i as int].0));
                assert(mapping_of(doc.model())[i as int].1 is Mapping);
            }
            let resources = match sections[i].1.as_mapping() {
                Some(m) => m,
                None => {
                    proof {
                        assert(false);
                    }
                    return YamlValue::Null;
                },
            };
            proof {
                let rm = entries_model(resources@);
                assert forall|j: int| 0 <= j < resources@.len() implies resource_ok(
                    (#[trigger] resources@[j]).1.model(),
                    sch,
                ) by {
                    assert(rm[j] == (resources@[j].0.model(), resources@[j].1.model()));
                    assert(mapping_of(mapping_of(doc.model())[i as int].1)[j] == rm[j]);
                }
            }
            let cleaned = clean_resources(resources, schemas);
            let value = YamlValue::Mapping(cleaned);
            proof {
                assert(value.model()->Mapping_0 =~= entries_model(cleaned@));
            }
            out.push((key, value));
        } else {
            let value = sections[i].1.deep_clone();
            out.push((key, value));
        }
        i = i + 1;
    }
    let r = YamlValue::Mapping(out);
    proof {
        assert(r.model()->Mapping_0 =~= entries_model(out@));
        let om = entries_model(out@);
        assert forall|k: int| 0 <= k < om.len() implies (#[trigger] om[k]).0 == dm[k].0 by {
            assert(om[k] == (out@[k].0.model(), out@[k].1.model()));
        }
        assert forall|k: int| 0 <= k < om.len() implies {
            &&& (#[trigger] mapping_of(r.model())[k]).0 == mapping_of(doc.model())[k].0
            &&& if is_resources_key(mapping_of(doc.model())[k].0) {
                &&& mapping_of(r.model())[k].1 is Mapping
                &&& is_cleaned_resources(
                    mapping_of(mapping_of(doc.model())[k].1),
                    sch,
                    mapping_of(mapping_of(r.model())[k].1),
                )
            } else {
                mapping_of(r.model())[k].1 == mapping_of(doc.model())[k].1
            }
        } by {
            assert(om[k] == (out@[k].0.model(), out@[k].1.model()));
        }
    }
    r
}

/// Whether some declared property is named `t` (all declared names being
/// strings).
fn declared_contains(props: &Vec<(YamlValue, YamlValue)>, t: &str) -> (r: bool)
    requires
        forall|k: int| 0 <= k < props@.len() ==> (#[trigger] props@[k]).0.model() is Text,
    ensures
        r == entries_model(props@).map_values(|e: (YamlModel, YamlModel)| text_of(e.0)).contains(t@),
{
    let ghost names = entries_model(props@).map_values(|e: (YamlModel, YamlModel)| text_of(e.0));
    let wanted = t.to_owned();
    let mut k: usize = 0;
    while k < props.len()
        invariant
            k <= props@.len(),
            names == entries_model(props@).map_values(|e: (YamlModel, YamlModel)| text_of(e.0)),
            wanted@ == t@,
            forall|q: int| 0 <= q < props@.len() ==> (#[trigger] props@[q]).0.model() is Text,
            forall|q: int| 0 <= q < k ==> names[q] != t@,
        decreases props.len() - k,
    {
        let name = text_value(&props[k].0);
        proof {
            assert(names[k as int] == name@);
        }
        if name.to_owned() == wanted {
            return true;
        }
        k = k + 1;
    }
    false
}

/// Whether a schema can be used for cleaning.
pub(crate) fn check_schema(schema: &Vec<(YamlValue, YamlValue)>) -> (r: bool)
    ensures
        r == schema_ok(entries_model(schema@)),
{
    let ghost sm = entries_model(schema@);
    let props = match mapping_get(schema, "properties") {
        Some(p) => match p.as_mapping() {
            Some(m) => m,
            None => return false,
        },
        None => return false,
    };
    proof {
        assert(declared_properties(sm) == entries_model(props@));
    }
    let mut k: usize = 0;
    while k < props.len()
        invariant
            k <= props@.len(),
            sm == entries_model(schema@),
            declared_properties(sm) == entries_model(props@),
            forall|q: int| 0 <= q < k ==> (#[trigger] props@[q]).0.model() is Text,
        decreases props.len() - k,
    {
        if props[k].0.as_str().is_none() {
            proof {
                assert(declared_properties(sm)[k as int].0 == props@[k as int].0.model());
                assert(!(declared_properties(sm)[k as int].0 is Text));
            }
            return false;
        }
        k = k + 1;
    }
    proof {
        assert forall|q: int| 0 <= q < declared_properties(sm).len() implies (#[trigger] declared_properties(
            sm,
        )[q]).0 is Text by {
            assert(declared_properties(sm)[q].0 == props@[q].0.model());
        }
        assert(declared_names(sm) =~= entries_model(props@).map_values(
            |e: (YamlModel, YamlModel)| text_of(e.0),
        ));
    }
    let dep = match mapping_get(schema, "dependentExcluded") {
        Some(d) => d,
        None => return true,
    };
    let d = match dep.as_mapping() {
        Some(d) => d,
        None => return false,
    };
    let ghost dm = entries_model(d@);
    let mut i: usize = 0;
    while i < d.len()
        invariant
            i <= d@.len(),
            sm == entries_model(schema@),
            dm == entries_model(d@),
            lookup_text(sm, "dependentExcluded"@) == Some(YamlModel::Mapping(dm)),
            forall|q: int| 0 <= q < props@.len() ==> (#[trigger] props@[q]).0.model() is Text,
            declared_names(sm) == entries_model(props@).map_values(
                |e: (YamlModel, YamlModel)| text_of(e.0),
            ),
            forall|q: int|
                0 <= q < i ==> {
                    &&& (#[trigger] dm[q]).0 is Text
                    &&& declared_names(sm).contains(text_of(dm[q].0))
                    &&& dm[q].1 is Array
                    &&& forall|j: int|
                        0 <= j < dm[q].1->Array_0.len() ==> {
                            &&& (#[trigger] dm[q].1->Array_0[j]) is Text
                            &&& declared_names(sm).contains(text_of(dm[q].1->Array_0[j]))
                        }
                },
        decreases d.len() - i,
    {
        proof {
            assert(dm[i as int] == (d@[i as int].0.model(), d@[i as int].1.model()));
        }
        let prop = match d[i].0.as_str() {
            Some(p) => p,
            None => {
                proof {
                    assert(!(dm[i as int].0 is Text));
                }
                return false;
            },
        };
        if !declared_contains(props, prop) {
            proof {
                assert(text_of(dm[i as int].0) == prop@);
                assert(!declared_names(sm).contains(text_of(dm[i as int].0)));
            }
            return false;
        }
        let others = match d[i].1.as_array() {
            Some(o) => o,
            None => {
                proof {
                    assert(!(dm[i as int].1 is Array));
                }
                return false;
            },
        };
        let ghost om = crate::yaml::items_model(others@);
        proof {
            assert(dm[i as int].1 == YamlModel::Array(om));
        }
        let mut j: usize = 0;
        while j < others.len()
            invariant
                j <= others@.len(),
                sm == entries_model(schema@),
                dm == entries_model(d@),
                i < dm.len(),
                lookup_text(sm, "dependentExcluded"@) == Some(YamlModel::Mapping(dm)),
                dm[i as int].1 == YamlModel::Array(om),
                om == crate::yaml::items_model(others@),
                forall|q: int| 0 <= q < props@.len() ==> (#[trigger] props@[q]).0.model() is Text,
                declared_names(sm) == entries_model(props@).map_values(
                    |e: (YamlModel, YamlModel)| text_of(e.0),
                ),
                forall|q: int|
                    0 <= q < j ==> {
                        &&& (#[trigger] om[q]) is Text
                        &&& declared_names(sm).contains(text_of(om[q]))
                    },
            decreases others.len() - j,
        {
            proof {
                assert(om[j as int] == others@[j as int].model());
            }
            let other = match others[j].as_str() {
                Some(o) => o,
                None => {
                    proof {
                        assert(dm[i as int].1->Array_0[j as int] == om[j as int]);
                        assert(!(om[j as int] is Text));
                    }
                    return false;
                },
            };
            if !declared_contains(props, other) {
                proof {
                    assert(dm[i as int].1->Array_0[j as int] == om[j as int]);
                    assert(text_of(om[j as int]) == other@);
                }
                return false;
            }
            j = j + 1;
        }
        i = i + 1;
    }
    true
}

/// Whether every property of `data` is named by a string that the schema
/// declares.
pub(crate) fn check_data(data: &Vec<(YamlValue, YamlValue)>, schema: &Vec<(YamlValue, YamlValue)>) -> (r: bool)
    requires
        schema_ok(entries_model(schema@)),
    ensures
        r == data_ok(entries_model(data@), entries_model(schema@)),
{
    let ghost sm = entries_model(schema@);
    let ghost dm = entries_model(data@);
    let props = match mapping_get(schema, "properties") {
        Some(p) => match p.as_mapping() {
            Some(m) => m,
            None => {
                proof {
                    assert(false);
                }
                return false;
            },
        },
        None => {
            proof {
                assert(false);
            }
            return false;
        },
    };
    proof {
        assert(declared_properties(sm) == entries_model(props@));
        assert forall|q: int| 0 <= q < props@.len() implies (#[trigger] props@[q]).0.model() is Text by {
            assert(declared_properties(sm)[q].0 == props@[q].0.model());
        }
        assert(declared_names(sm) =~= entries_model(props@).map_values(
            |e: (YamlModel, YamlModel)| text_of(e.0),
        ));
    }
    let mut i: usize = 0;
    while i < data.len()
        invariant
            i <= data@.len(),
            sm == entries_model(schema@),
            dm == entries_model(data@),
            forall|q: int| 0 <= q < props@.len() ==> (#[trigger] props@[q]).0.model() is Text,
            declared_names(sm) == entries_model(props@).map_values(
                |e: (YamlModel, YamlModel)| text_of(e.0),
            ),
            forall|q: int|
                0 <= q < i ==> {
                    &&& (#[trigger] dm[q]).0 is Text
                    &&& declared_names(sm).contains(text_of(dm[q].0))
                },
        decreases data.len() - i,
    {
        proof {
            assert(dm[i as int] == (data@[i as int].0.model(), data@[i as int].1.model()));
        }
        let name = match data[i].0.as_str() {
            Some(n) => n,
            None => {
                proof {
                    assert(!(dm[i as int].0 is Text));
                }
                return false;
            },
        };
        if !declared_contains(props, name) {
            proof {
                assert(text_of(dm[i as int].0) == name@);
            }
            return false;
        }
        i = i + 1;
    }
    true
}

/// Whether a resource can be cleaned with the given schemas.
fn check_resource(resource: &YamlValue, schemas: &Vec<(String, YamlValue)>) -> (r: bool)
    ensures
        r == resource_ok(resource.model(), schemas_model(schemas@)),
{
    let schema = match schema_for(resource, schemas) {
        Some(s) => s,
        None => return false,
    };
    let schema_entries = match schema.as_mapping() {
        Some(m) => m,
        None => return false,
    };
    let props = match properties(resource) {
        Some(p) => p,
        None => return false,
    };
    if !check_schema(schema_entries) {
        return false;
    }
    check_data(props, schema_entries)
}

/// Whether a template can be cleaned with the given schemas.
fn check_template(doc: &YamlValue, schemas: &Vec<(String, YamlValue)>) -> (r: bool)
    ensures
        r == template_ok(doc.model(), schemas_model(schemas@)),
{
    let ghost sch = schemas_model(schemas@);
    let sections = match doc.as_mapping() {
        Some(m) => m,
        None => return false,
    };
    let ghost dm = entries_model(sections@);
    let mut i: usize = 0;
    while i < sections.len()
        invariant
            i <= sections@.len(),
            sch == schemas_model(schemas@),
            dm == entries_model(sections@),
            doc.model() == YamlModel::Mapping(dm),
            forall|k: int|
                0 <= k < i && is_resources_key(#[trigger] dm[k].0) ==> {
                    &&& dm[k].1 is Mapping
                    &&& forall|j: int|
                        0 <= j < mapping_of(dm[k].1).len() ==> resource_ok(
                            (#[trigger] mapping_of(dm[k].1)[j]).1,
                            sch,
                        )
                },
        decreases sections.len() - i,
    {
        proof {
            assert(dm[i as int] == (sections@[i as int].0.model(), sections@[i as int].1.model()));
        }
        if is_resources_section(&sections[i].0) {
            proof {
                assert(mapping_of(doc.model()) == dm);
                assert(is_resources_key(mapping_of(doc.model())[i as int].0));
            }
            let resources = match sections[i].1.as_mapping() {
                Some(m) => m,
                None => return false,
            };
            let ghost rm = entries_model(resources@);
            proof {
                assert(mapping_of(mapping_of(doc.model())[i as int].1) == rm);
            }
            let mut j: usize = 0;
            while j < resources.len()
                invariant
                    j <= resources@.len(),
                    sch == schemas_model(schemas@),
                    rm == entries_model(resources@),
                    doc.model() == YamlModel::Mapping(dm),
                    i < dm.len(),
                    is_resources_key(dm[i as int].0),
                    dm[i as int].1 is Mapping,
                    mapping_of(mapping_of(doc.model())[i as int].1) == rm,
                    forall|q: int| 0 <= q < j ==> resource_ok((#[trigger] rm[q]).1, sch),
                decreases resources.len() - j,
            {
                proof {
                    assert(rm[j as int] == (resources@[j as int].0.model(), resources@[j as int].1.model()));
                }
                if !check_resource(&resources[j].1, schemas) {
                    proof {
                        assert(mapping_of(mapping_of(doc.model())[i as int].1)[j as int] == rm[j as int]);
                    }
                    return false;
                }
                j = j + 1;
            }
        }
        i = i + 1;
    }
    true
}

/// Cleans a template when it can be cleaned with the given schemas;
/// `None` exactly when it cannot (a resource without a type or without
/// properties, a missing or unusable schema, a property the schema does not
/// declare).
pub fn try_clean_template(doc: &YamlValue, schemas: &Vec<(String, YamlValue)>) -> (r: Option<YamlValue>)
    ensures
        r is Some == template_ok(doc.model(), schemas_model(schemas@)),
        r matches Some(t) ==> is_cleaned_template(doc.model(), schemas_model(schemas@), t.model()),
{
    if check_template(doc, schemas) {
        Some(clean_template(doc, schemas))
    } else {
        None
    }
}

/// The schema files of the resources in `rm` that have a type, in order.
pub open spec fn resource_files(rm: Seq<(YamlModel, YamlModel)>) -> Seq<Seq<char>>
    decreases rm.len(),
{
    if rm.len() == 0 {
        Seq::empty()
    } else {
        let before = resource_files(rm.drop_last());
        match resource_type_of(rm.last().1) {
            Some(t) => before.push(schema_file_name(t)),
            None => before,
        }
    }
}

/// The schema files of the resources of every `Resources` section of
/// `dm` that is a mapping, in order.
pub open spec fn section_files(dm: Seq<(YamlModel, YamlModel)>) -> Seq<Seq<char>>
    decreases dm.len(),
{
    if dm.len() == 0 {
        Seq::empty()
    } else {
        let before = section_files(dm.drop_last());
        if is_resources_key(dm.last().0) {
            before + resource_files(mapping_of(dm.last().1))
        } else {
            before
        }
    }
}

/// The schema files that cleaning the template needs: one per resource
/// with a type, in the order of the resources.
pub fn schema_files(doc: &YamlValue) -> (r: Vec<String>)
    ensures
        crate::naming::views(r@) == section_files(mapping_of(doc.model())),
{
    let mut out: Vec<String> = Vec::new();
    let sections = match doc.as_mapping() {
        Some(m) => m,
        None => {
            proof {
                assert(crate::naming::views(out@) =~= Seq::<Seq<char>>::empty());
            }
            return out;
        },
    };
    let ghost dm = entries_model(sections@);
    let mut i: usize = 0;
    proof {
        assert(crate::naming::views(out@) =~= Seq::<Seq<char>>::empty());
        assert(dm.take(0) =~= Seq::<(YamlModel, YamlModel)>::empty());
    }
    while i < sections.len()
        invariant
            i <= sections@.len(),
            dm == entries_model(sections@),
            doc.model() == YamlModel::Mapping(dm),
            crate::naming::views(out@) == section_files(dm.take(i as int)),
        decreases sections.len() - i,
    {
        proof {
            assert(dm[i as int] == (sections@[i as int].0.model(), sections@[i as int].1.model()));
            assert(dm.take(i + 1).drop_last() =~= dm.take(i as int));
            assert(dm.take(i + 1).last() == dm[i as int]);
        }
        let ghost before = crate::naming::views(out@);
        if is_resources_section(&sections[i].0) {
            match sections[i].1.as_mapping() {
                Some(resources) => {
                    let ghost rm = entries_model(resources@);
                    let mut j: usize = 0;
                    proof {
                        assert(rm.take(0) =~= Seq::<(YamlModel, YamlModel)>::empty());
                        assert(before + resource_files(rm.take(0)) =~= before);
                    }
                    while j < resources.len()
                        invariant
                            j <= resources@.len(),
                            rm == entries_model(resources@),
                            crate::naming::views(out@) == before + resource_files(rm.take(j as int)),
                        decreases resources.len() - j,
                    {
                        proof {
                            assert(rm[j as int] == (
                                resources@[j as int].0.model(),
                                resources@[j as int].1.model(),
                            ));
                            assert(rm.take(j + 1).drop_last() =~= rm.take(j as int));
                            assert(rm.take(j + 1).last() == rm[j as int]);
                        }
                        let ghost prev = crate::naming::views(out@);
                        match schema_file_for(&resources[j].1) {
                            Some(f) => {
                                out.push(f);
                                proof {
                                    assert(crate::naming::views(out@) =~= prev.push(f@));
                                    assert(crate::naming::views(out@) =~= before + resource_files(
                                        rm.take(j + 1),
                                    ));
                                }
                            },
                            None => {},
                        }
                        j = j + 1;
                    }
                    proof {
                        assert(rm.take(j as int) =~= rm);
                        assert(rm == mapping_of(dm[i as int].1));
                    }
                },
                None => {
                    proof {
                        assert(resource_files(mapping_of(dm[i as int].1)) =~= Seq::<Seq<char>>::empty());
                        assert(before + Seq::<Seq<char>>::empty() =~= before);
                    }
                },
            }
        }
        i = i + 1;
    }
    proof {
        assert(dm.take(i as int) =~= dm);
    }
    out
}

/// Looking up a string key finds the value of the first entry with that
/// key.
proof fn lemma_lookup_text_first(m: Seq<(YamlModel, YamlModel)>, k: Seq<char>, i: int)
    requires
        0 <= i < m.len(),
        m[i].0 == YamlModel::Text(k),
        forall|j: int| 0 <= j < i ==> m[j].0 != YamlModel::Text(k),
    ensures
        lookup_text(m, k) == Some(m[i].1),
    decreases i,
{
    if i > 0 {
        assert(m[0].0 != YamlModel::Text(k));
        assert forall|j: int| 0 <= j < i - 1 implies m.drop_first()[j].0 != YamlModel::Text(k) by {
            assert(m.drop_first()[j] == m[j + 1]);
        }
        lemma_lookup_text_first(m.drop_first(), k, i - 1);
        assert(m.drop_first()[i - 1] == m[i]);
    }
}

/// Looking up a string key that no entry has finds nothing.
proof fn lemma_lookup_text_absent(m: Seq<(YamlModel, YamlModel)>, k: Seq<char>)
    requires
        forall|j: int| 0 <= j < m.len() ==> m[j].0 != YamlModel::Text(k),
    ensures
        lookup_text(m, k) is None,
    decreases m.len(),
{
    if m.len() > 0 {
        assert(m[0].0 != YamlModel::Text(k));
        assert forall|j: int| 0 <= j < m.len() - 1 implies m.drop_first()[j].0 != YamlModel::Text(k) by {
            assert(m.drop_first()[j] == m[j + 1]);
        }
        lemma_lookup_text_absent(m.drop_first(), k);
    }
}

/// A schema is found by name wherever its entry stands in the table: the
/// lookup gives the schema of the first entry with that name.
pub proof fn law_schema_found_by_name(schemas: Seq<(Seq<char>, YamlModel)>, name: Seq<char>, i: int)
    requires
        0 <= i < schemas.len(),
        schemas[i].0 == name,
        forall|k: int| 0 <= k < i ==> schemas[k].0 != name,
    ensures
        schema_named(schemas, name) == Some(schemas[i].1),
    decreases i,
{
    if i > 0 {
        assert(schemas[0].0 != name);
        assert forall|k: int| 0 <= k < i - 1 implies schemas.drop_first()[k].0 != name by {
            assert(schemas.drop_first()[k] == schemas[k + 1]);
        }
        law_schema_found_by_name(schemas.drop_first(), name, i - 1);
        assert(schemas.drop_first()[i - 1] == schemas[i]);
    }
}

/// The lookup finds nothing only when no entry of the table has the name.
pub proof fn law_schema_missing_only_when_unnamed(schemas: Seq<(Seq<char>, YamlModel)>, name: Seq<char>)
    ensures
        schema_named(schemas, name) is None <==> forall|k: int| 0 <= k < schemas.len() ==> schemas[k].0 != name,
    decreases schemas.len(),
{
    if schemas.len() > 0 {
        law_schema_missing_only_when_unnamed(schemas.drop_first(), name);
        if schemas[0].0 != name {
            assert forall|k: int| 0 <= k < schemas.len() && schemas[k].0 == name implies k > 0
                && schemas.drop_first()[k - 1].0 == name by {
                assert(schemas.drop_first()[k - 1] == schemas[k]);
            }
            assert forall|k: int| 0 <= k < schemas.len() - 1 && schemas.drop_first()[k].0 == name implies schemas[k
                + 1].0 == name by {
                assert(schemas.drop_first()[k] == schemas[k + 1]);
            }
        }
    }
}

/// The schema of a typed resource is that of the first table entry named
/// after its type, wherever that entry stands.
pub proof fn law_resource_schema_found(
    resource: YamlModel,
    schemas: Seq<(Seq<char>, YamlModel)>,
    t: Seq<char>,
    i: int,
)
    requires
        resource_type_of(resource) == Some(t),
        0 <= i < schemas.len(),
        schemas[i].0 == schema_file_name(t),
        forall|k: int| 0 <= k < i ==> schemas[k].0 != schema_file_name(t),
    ensures
        resource_schema(resource, schemas) == Some(schemas[i].1),
{
    law_schema_found_by_name(schemas, schema_file_name(t), i);
}

/// A schema whose `properties` entry is a mapping with string keys and
/// that has no `dependentExcluded` entry is usable, and excludes nothing:
/// every declared property is alone in its set.
pub proof fn law_schema_without_exclusions_is_usable(schema: Seq<(YamlModel, YamlModel)>, i: int)
    requires
        0 <= i < schema.len(),
        schema[i].0 == YamlModel::Text("properties"@),
        schema[i].1 is Mapping,
        forall|k: int| 0 <= k < i ==> schema[k].0 != YamlModel::Text("properties"@),
        forall|j: int| 0 <= j < schema[i].1->Mapping_0.len() ==> (#[trigger] schema[i].1->Mapping_0[j]).0 is Text,
        forall|k: int| 0 <= k < schema.len() ==> schema[k].0 != YamlModel::Text("dependentExcluded"@),
    ensures
        schema_ok(schema),
        exclusion_classes(schema) == singletons(declared_names(schema)),
{
    lemma_lookup_text_first(schema, "properties"@, i);
    lemma_lookup_text_absent(schema, "dependentExcluded"@);
    assert(declared_properties(schema) == schema[i].1->Mapping_0);
    assert(exclusions(schema) =~= Seq::<(YamlModel, YamlModel)>::empty());
}

/// The section key that marks the resources is exactly the string
/// `Resources`.
pub proof fn law_resources_key(k: YamlModel)
    ensures
        is_resources_key(k) <==> k == YamlModel::Text("Resources"@),
{
}

/// Cleaning copies every section not keyed `Resources` unchanged.
pub proof fn law_other_sections_copied(
    doc: YamlModel,
    schemas: Seq<(Seq<char>, YamlModel)>,
    out: YamlModel,
    i: int,
)
    requires
        is_cleaned_template(doc, schemas, out),
        0 <= i < mapping_of(doc).len(),
        mapping_of(doc)[i].0 != YamlModel::Text("Resources"@),
    ensures
        mapping_of(out)[i] == mapping_of(doc)[i],
{
    law_resources_key(mapping_of(doc)[i].0);
    assert(mapping_of(out)[i].0 == mapping_of(doc)[i].0);
}

/// Only the sections keyed `Resources` decide whether a template can be
/// cleaned: a mapping whose `Resources` sections are mappings of cleanable
/// resources can be, whatever its other sections hold.
pub proof fn law_other_sections_never_block(doc: YamlModel, schemas: Seq<(Seq<char>, YamlModel)>)
    requires
        doc is Mapping,
        forall|i: int|
            0 <= i < mapping_of(doc).len() && #[trigger] mapping_of(doc)[i].0 == YamlModel::Text("Resources"@)
                ==> {
                &&& mapping_of(doc)[i].1 is Mapping
                &&& forall|j: int|
                    0 <= j < mapping_of(mapping_of(doc)[i].1).len() ==> resource_ok(
                        (#[trigger] mapping_of(mapping_of(doc)[i].1)[j]).1,
                        schemas,
                    )
            },
    ensures
        template_ok(doc, schemas),
{
    assert forall|i: int|
        0 <= i < mapping_of(doc).len() && is_resources_key(#[trigger] mapping_of(doc)[i].0) implies {
        &&& mapping_of(doc)[i].1 is Mapping
        &&& forall|j: int|
            0 <= j < mapping_of(mapping_of(doc)[i].1).len() ==> resource_ok(
                (#[trigger] mapping_of(mapping_of(doc)[i].1)[j]).1,
                schemas,
            )
    } by {
        law_resources_key(mapping_of(doc)[i].0);
    }
}

/// `files` holds one entry per resource of `rm` with a string type, the
/// file named after that type, in resource order: `pos` gives, increasing,
/// the position of the resource behind each entry, and takes in every
/// typed resource.
pub open spec fn one_file_per_typed(
    rm: Seq<(YamlModel, YamlModel)>,
    files: Seq<Seq<char>>,
    pos: Seq<int>,
) -> bool {
    &&& pos.len() == files.len()
    &&& forall|a: int, b: int| 0 <= a < b < pos.len() ==> pos[a] < pos[b]
    &&& forall|k: int|
        0 <= k < pos.len() ==> {
            &&& 0 <= #[trigger] pos[k] < rm.len()
            &&& resource_type_of(rm[pos[k]].1) is Some
            &&& files[k] == schema_file_name(resource_type_of(rm[pos[k]].1)->0)
        }
    &&& forall|j: int| 0 <= j < rm.len() && resource_type_of(#[trigger] rm[j].1) is Some ==> pos.contains(j)
}

/// The schema files of a resource mapping: exactly one per resource with
/// a string type, the file named after that type, in resource order.
pub proof fn law_resource_files_one_per_typed(rm: Seq<(YamlModel, YamlModel)>)
    ensures
        exists|pos: Seq<int>| #[trigger] one_file_per_typed(rm, resource_files(rm), pos),
    decreases rm.len(),
{
    if rm.len() == 0 {
        let pos = Seq::<int>::empty();
        assert(pos.len() == resource_files(rm).len());
        assert(one_file_per_typed(rm, resource_files(rm), pos));
    } else {
        let front = rm.drop_last();
        let n = rm.len() - 1;
        law_resource_files_one_per_typed(front);
        let pos0 = choose|pos: Seq<int>| one_file_per_typed(front, resource_files(front), pos);
        assert(rm.last() == rm[n]);
        let files = resource_files(rm);
        if resource_type_of(rm[n].1) is Some {
            let pos = pos0.push(n);
            assert(files == resource_files(front).push(schema_file_name(resource_type_of(rm[n].1)->0)));
            assert forall|k: int| 0 <= k < pos.len() implies {
                &&& 0 <= #[trigger] pos[k] < rm.len()
                &&& resource_type_of(rm[pos[k]].1) is Some
                &&& files[k] == schema_file_name(resource_type_of(rm[pos[k]].1)->0)
            } by {
                if k < pos0.len() {
                    assert(pos[k] == pos0[k]);
                    assert(rm[pos0[k]] == front[pos0[k]]);
                }
            }
            assert forall|j: int| 0 <= j < rm.len() && resource_type_of(#[trigger] rm[j].1) is Some implies pos.contains(
                j,
            ) by {
                if j < n {
                    assert(front[j] == rm[j]);
                    assert(pos0.contains(j));
                    let k = choose|k: int| 0 <= k < pos0.len() && pos0[k] == j;
                    assert(pos[k] == j);
                } else {
                    assert(pos[pos.len() - 1] == n);
                }
            }
            assert(pos.len() == files.len());
            assert forall|a: int, b: int| 0 <= a < b < pos.len() implies pos[a] < pos[b] by {
                if b == pos.len() - 1 {
                    assert(pos0[a] < front.len());
                }
            }
            assert(one_file_per_typed(rm, files, pos));
        } else {
            let pos = pos0;
            assert(files == resource_files(front));
            assert forall|k: int| 0 <= k < pos.len() implies {
                &&& 0 <= #[trigger] pos[k] < rm.len()
                &&& resource_type_of(rm[pos[k]].1) is Some
                &&& files[k] == schema_file_name(resource_type_of(rm[pos[k]].1)->0)
            } by {
                assert(rm[pos0[k]] == front[pos0[k]]);
            }
            assert forall|j: int| 0 <= j < rm.len() && resource_type_of(#[trigger] rm[j].1) is Some implies pos.contains(
                j,
            ) by {
                assert(j < n);
                assert(front[j] == rm[j]);
            }
            assert(one_file_per_typed(rm, files, pos));
        }
    }
}

/// The file of every typed resource is among the files of its mapping.
proof fn lemma_resource_files_contain(rm: Seq<(YamlModel, YamlModel)>, j: int)
    requires
        0 <= j < rm.len(),
        resource_type_of(rm[j].1) is Some,
    ensures
        resource_files(rm).contains(schema_file_name(resource_type_of(rm[j].1)->0)),
{
    law_resource_files_one_per_typed(rm);
    let pos = choose|pos: Seq<int>| one_file_per_typed(rm, resource_files(rm), pos);
    assert(pos.contains(j));
    let k = choose|k: int| 0 <= k < pos.len() && pos[k] == j;
    assert(resource_files(rm)[k] == schema_file_name(resource_type_of(rm[j].1)->0));
}

/// The schema files that a template needs include the file of every
/// resource with a string type in every `Resources` section that is a
/// mapping.
pub proof fn law_section_files_cover_every_typed_resource(
    dm: Seq<(YamlModel, YamlModel)>,
    i: int,
    j: int,
)
    requires
        0 <= i < dm.len(),
        dm[i].0 == YamlModel::Text("Resources"@),
        dm[i].1 is Mapping,
        0 <= j < mapping_of(dm[i].1).len(),
        resource_type_of(mapping_of(dm[i].1)[j].1) is Some,
    ensures
        section_files(dm).contains(schema_file_name(resource_type_of(mapping_of(dm[i].1)[j].1)->0)),
    decreases dm.len(),
{
    let f = schema_file_name(resource_type_of(mapping_of(dm[i].1)[j].1)->0);
    let front = dm.drop_last();
    let before = section_files(front);
    assert(dm.last() == dm[dm.len() - 1]);
    if i == dm.len() - 1 {
        law_resources_key(dm[i].0);
        lemma_resource_files_contain(mapping_of(dm[i].1), j);
        let rf = resource_files(mapping_of(dm[i].1));
        let k = choose|k: int| 0 <= k < rf.len() && rf[k] == f;
        assert(section_files(dm) == before + rf);
        assert(section_files(dm)[before.len() + k] == f);
    } else {
        assert(front[i] == dm[i]);
        law_section_files_cover_every_typed_resource(front, i, j);
        let k = choose|k: int| 0 <= k < before.len() && before[k] == f;
        if is_resources_key(dm.last().0) {
            assert(section_files(dm) == before + resource_files(mapping_of(dm.last().1)));
        }
        assert(section_files(dm)[k] == f);
    }
}

/// Every schema file that a template needs is the file of some resource
/// with a string type in a `Resources` section.
pub proof fn law_section_files_only_typed_resources(dm: Seq<(YamlModel, YamlModel)>, f: Seq<char>)
    requires
        section_files(dm).contains(f),
    ensures
        exists|i: int, j: int|
            #![trigger mapping_of(dm[i].1)[j]]
            0 <= i < dm.len() && dm[i].0 == YamlModel::Text("Resources"@) && 0 <= j < mapping_of(dm[i].1).len()
                && resource_type_of(mapping_of(dm[i].1)[j].1) is Some && f == schema_file_name(
                resource_type_of(mapping_of(dm[i].1)[j].1)->0,
            ),
    decreases dm.len(),
{
    let front = dm.drop_last();
    let before = section_files(front);
    let n = dm.len() - 1;
    assert(dm.last() == dm[n]);
    let k = choose|k: int| 0 <= k < section_files(dm).len() && section_files(dm)[k] == f;
    if is_resources_key(dm[n].0) {
        law_resources_key(dm[n].0);
        let rm = mapping_of(dm[n].1);
        let rf = resource_files(rm);
        assert(section_files(dm) == before + rf);
        if k < before.len() {
            assert(before[k] == f);
            law_section_files_only_typed_resources(front, f);
            let (i, j) = choose|i: int, j: int|
                #![trigger mapping_of(front[i].1)[j]]
                0 <= i < front.len() && front[i].0 == YamlModel::Text("Resources"@) && 0 <= j < mapping_of(
                    front[i].1,
                ).len() && resource_type_of(mapping_of(front[i].1)[j].1) is Some && f == schema_file_name(
                    resource_type_of(mapping_of(front[i].1)[j].1)->0,
                );
            assert(front[i] == dm[i]);
            assert(mapping_of(dm[i].1)[j] == mapping_of(front[i].1)[j]);
        } else {
            law_resource_files_one_per_typed(rm);
            let pos = choose|pos: Seq<int>| one_file_per_typed(rm, resource_files(rm), pos);
            let q = k - before.len();
            assert(rf[q] == f);
            let j = pos[q];
            assert(mapping_of(dm[n].1)[j] == rm[j]);
        }
    } else {
        assert(section_files(dm) == before);
        law_section_files_only_typed_resources(front, f);
        let (i, j) = choose|i: int, j: int|
            #![trigger mapping_of(front[i].1)[j]]
            0 <= i < front.len() && front[i].0 == YamlModel::Text("Resources"@) && 0 <= j < mapping_of(
                front[i].1,
            ).len() && resource_type_of(mapping_of(front[i].1)[j].1) is Some && f == schema_file_name(
                resource_type_of(mapping_of(front[i].1)[j].1)->0,
            );
        assert(front[i] == dm[i]);
        assert(mapping_of(dm[i].1)[j] == mapping_of(front[i].1)[j]);
    }
}

} // verus!
