//! Cleaning a template given as YAML text, with its schemas given as YAML
//! texts by file name.

use crate::naming::{schema_file_name, type_to_filename};
use crate::parse::{
    last_document, load_documents, parsed_documents, schema_from_text, value_from_yaml, ScanFailure,
};
use crate::template::{
    law_resources_key, law_schema_without_exclusions_is_usable,
    check_data, check_schema, clean_template, data_ok, law_cleaned_template_well_formed, is_cleaned_template, is_resources_key,
    mapping_of, properties, resource_ok, resource_properties, resource_schema, resource_type,
    resource_type_of, schema_files, schema_named, schema_ok, schemas_model, section_files,
    template_ok,
};
use crate::yaml::{entries_model, well_formed, YamlModel, YamlValue};
use vstd::prelude::*;

verus! {

/// Why a template text could not be cleaned, with the scan error of the
/// text that does not parse.
#[derive(Debug, PartialEq, Eq)]
pub enum CleanError {
    /// The template text does not parse.
    TemplateNotParsed(ScanFailure),
    /// The schema text of a resource does not parse.
    SchemaNotParsed(ScanFailure),
}

/// How cleaning a resource, a section or a template goes: it can be done,
/// a schema text does not scan (an error, with its scan error), or it
/// cannot be done at all (a resource without a type, properties or schema,
/// or a schema that does not fit its properties).
pub enum Verdict {
    Fine,
    SchemaNotParsed((Seq<char>, usize, usize, usize)),
    Fails,
}

/// A `Verdict` as a running check computes it.
pub enum Outcome {
    Fine,
    SchemaNotParsed(ScanFailure),
    Fails,
}

impl View for Outcome {
    type V = Verdict;

    open spec fn view(&self) -> Verdict {
        match self {
            Outcome::Fine => Verdict::Fine,
            Outcome::SchemaNotParsed(e) => Verdict::SchemaNotParsed(e@),
            Outcome::Fails => Verdict::Fails,
        }
    }
}

/// Schema texts by file name, as plain values.
pub open spec fn texts_model(texts: Seq<(String, String)>) -> Seq<(Seq<char>, Seq<char>)> {
    Seq::new(texts.len(), |i: int| (texts[i].0@, texts[i].1@))
}

/// The text of the first schema named `name`.
pub open spec fn text_named(texts: Seq<(Seq<char>, Seq<char>)>, name: Seq<char>) -> Option<Seq<char>>
    decreases texts.len(),
{
    if texts.len() == 0 {
        None
    } else if texts[0].0 == name {
        Some(texts[0].1)
    } else {
        text_named(texts.drop_first(), name)
    }
}

/// The schemas that the texts hold: for each, its last document, or a bad
/// value when it has none.
pub open spec fn schemas_from_texts(texts: Seq<(Seq<char>, Seq<char>)>) -> Seq<(Seq<char>, YamlModel)> {
    Seq::new(
        texts.len(),
        |i: int|
            (
                texts[i].0,
                match last_document(texts[i].1) {
                    Some(m) => m,
                    None => YamlModel::BadValue,
                },
            ),
    )
}

/// How cleaning one resource goes.
pub open spec fn resource_outcome(res: YamlModel, texts: Seq<(Seq<char>, Seq<char>)>) -> Verdict {
    match resource_type_of(res) {
        None => Verdict::Fails,
        Some(t) => match text_named(texts, schema_file_name(t)) {
            None => Verdict::Fails,
            Some(txt) => match parsed_documents(txt) {
                Err(e) => Verdict::SchemaNotParsed(e),
                Ok(d) => if d.len() == 0 || resource_properties(res) is None || !(d.last() is Mapping) {
                    Verdict::Fails
                } else if schema_ok(mapping_of(d.last())) && data_ok(
                    resource_properties(res)->0,
                    mapping_of(d.last()),
                ) {
                    Verdict::Fine
                } else {
                    Verdict::Fails
                },
            },
        },
    }
}

/// How cleaning the resources goes, one after the other: the first that
/// does not go fine decides.
pub open spec fn resources_outcome(rm: Seq<(YamlModel, YamlModel)>, texts: Seq<(Seq<char>, Seq<char>)>) -> Verdict
    decreases rm.len(),
{
    if rm.len() == 0 {
        Verdict::Fine
    } else {
        match resource_outcome(rm[0].1, texts) {
            Verdict::Fine => resources_outcome(rm.drop_first(), texts),
            o => o,
        }
    }
}

/// How cleaning one section goes.
pub open spec fn section_outcome(section: (YamlModel, YamlModel), texts: Seq<(Seq<char>, Seq<char>)>) -> Verdict {
    if is_resources_key(section.0) {
        if section.1 is Mapping {
            resources_outcome(mapping_of(section.1), texts)
        } else {
            Verdict::Fails
        }
    } else {
        Verdict::Fine
    }
}

/// How cleaning the sections goes, one after the other.
pub open spec fn sections_outcome(dm: Seq<(YamlModel, YamlModel)>, texts: Seq<(Seq<char>, Seq<char>)>) -> Verdict
    decreases dm.len(),
{
    if dm.len() == 0 {
        Verdict::Fine
    } else {
        match section_outcome(dm[0], texts) {
            Verdict::Fine => sections_outcome(dm.drop_first(), texts),
            o => o,
        }
    }
}

/// A template text that can be cleaned or refused with an error: it does
/// not parse, or its last document is a mapping whose cleaning does not
/// fail outright.
pub open spec fn text_cleanable(template: Seq<char>, texts: Seq<(Seq<char>, Seq<char>)>) -> bool {
    match parsed_documents(template) {
        Err(_) => true,
        Ok(d) => {
            &&& d.len() > 0
            &&& d.last() is Mapping
            &&& !(sections_outcome(mapping_of(d.last()), texts) is Fails)
        },
    }
}

/// What cleaning a template text gives: `TemplateNotParsed`, with the
/// template's scan error, exactly when the template does not parse;
/// `SchemaNotParsed`, with the schema text's scan error, exactly when the
/// schema text of a resource does not parse before anything else goes
/// wrong; and
/// otherwise the last document of the template, cleaned with the last
/// document of each schema text (every mapping of it with distinct keys).
pub open spec fn cleaned_text(
    template: Seq<char>,
    texts: Seq<(Seq<char>, Seq<char>)>,
    r: Result<YamlValue, CleanError>,
) -> bool {
    &&& (r matches Err(CleanError::TemplateNotParsed(_))) <==> parsed_documents(template) is Err
    &&& r matches Err(CleanError::TemplateNotParsed(e)) ==> e@ == parsed_documents(template)->Err_0
    &&& (r matches Err(CleanError::SchemaNotParsed(_))) <==> (parsed_documents(template) is Ok
        && sections_outcome(mapping_of(last_document(template)->0), texts) is SchemaNotParsed)
    &&& r matches Err(CleanError::SchemaNotParsed(e)) ==> sections_outcome(
        mapping_of(last_document(template)->0),
        texts,
    ) == Verdict::SchemaNotParsed(e@)
    &&& r matches Ok(v) ==> is_cleaned_template(
        last_document(template)->0,
        schemas_from_texts(texts),
        v.model(),
    ) && well_formed(v.model())
}

/// The schema found by name among schemas parsed from texts is the last
/// document of the text found by that name.
proof fn lemma_schema_named_texts(texts: Seq<(Seq<char>, Seq<char>)>, name: Seq<char>)
    ensures
        schema_named(schemas_from_texts(texts), name) == match text_named(texts, name) {
            None => None,
            Some(t) => Some(
                match last_document(t) {
                    Some(m) => m,
                    None => YamlModel::BadValue,
                },
            ),
        },
    decreases texts.len(),
{
    if texts.len() > 0 {
        lemma_schema_named_texts(texts.drop_first(), name);
        assert(schemas_from_texts(texts).drop_first() =~= schemas_from_texts(texts.drop_first()));
    }
}

/// A resource whose cleaning goes fine can be cleaned with the schemas
/// parsed from the texts.
proof fn lemma_resource_fine(res: YamlModel, texts: Seq<(Seq<char>, Seq<char>)>)
    requires
        resource_outcome(res, texts) == Verdict::Fine,
    ensures
        resource_ok(res, schemas_from_texts(texts)),
{
    let t = resource_type_of(res)->0;
    lemma_schema_named_texts(texts, schema_file_name(t));
}

/// When the resources go fine, each of them does.
proof fn lemma_resources_fine(rm: Seq<(YamlModel, YamlModel)>, texts: Seq<(Seq<char>, Seq<char>)>)
    requires
        resources_outcome(rm, texts) == Verdict::Fine,
    ensures
        forall|j: int| 0 <= j < rm.len() ==> resource_ok(#[trigger] rm[j].1, schemas_from_texts(texts)),
    decreases rm.len(),
{
    if rm.len() > 0 {
        lemma_resource_fine(rm[0].1, texts);
        lemma_resources_fine(rm.drop_first(), texts);
        assert forall|j: int| 0 <= j < rm.len() implies resource_ok(#[trigger] rm[j].1, schemas_from_texts(texts)) by {
            if j > 0 {
                assert(rm[j] == rm.drop_first()[j - 1]);
            }
        }
    }
}

/// When the sections go fine, the template can be cleaned with the schemas
/// parsed from the texts.
proof fn lemma_sections_fine(dm: Seq<(YamlModel, YamlModel)>, texts: Seq<(Seq<char>, Seq<char>)>)
    requires
        sections_outcome(dm, texts) == Verdict::Fine,
    ensures
        template_ok(YamlModel::Mapping(dm), schemas_from_texts(texts)),
    decreases dm.len(),
{
    if dm.len() > 0 {
        lemma_sections_fine(dm.drop_first(), texts);
        if is_resources_key(dm[0].0) {
            lemma_resources_fine(mapping_of(dm[0].1), texts);
        }
        let doc = YamlModel::Mapping(dm);
        assert forall|i: int|
            0 <= i < mapping_of(doc).len() && is_resources_key(#[trigger] mapping_of(doc)[i].0) implies {
            &&& mapping_of(doc)[i].1 is Mapping
            &&& forall|j: int|
                0 <= j < mapping_of(mapping_of(doc)[i].1).len() ==> resource_ok(
                    (#[trigger] mapping_of(mapping_of(doc)[i].1)[j]).1,
                    schemas_from_texts(texts),
                )
        } by {
            if i > 0 {
                let rest = YamlModel::Mapping(dm.drop_first());
                assert(mapping_of(rest)[i - 1] == dm[i]);
            }
        }
    }
}

/// The text of the first schema named `name`.
fn text_for<'a>(texts: &'a Vec<(String, String)>, name: &String) -> (r: Option<&'a String>)
    ensures
        r is Some == text_named(texts_model(texts@), name@) is Some,
        r matches Some(t) ==> text_named(texts_model(texts@), name@) == Some(t@),
{
    let ghost tm = texts_model(texts@);
    let mut i: usize = 0;
    proof {
        assert(tm.skip(0) =~= tm);
    }
    while i < texts.len()
        invariant
            i <= texts@.len(),
            tm == texts_model(texts@),
            text_named(tm.skip(i as int), name@) == text_named(tm, name@),
        decreases texts.len() - i,
    {
        proof {
            assert(tm.skip(i as int)[0] == tm[i as int]);
            assert(tm.skip(i as int).drop_first() =~= tm.skip(i + 1));
        }
        if texts[i].0 == *name {
            return Some(&texts[i].1);
        }
        i = i + 1;
    }
    None
}

/// How cleaning one resource goes.
fn resource_check(res: &YamlValue, texts: &Vec<(String, String)>) -> (r: Outcome)
    ensures
        r@ == resource_outcome(res.model(), texts_model(texts@)),
{
    let t = match resource_type(res) {
        Some(t) => t,
        None => return Outcome::Fails,
    };
    let name = type_to_filename(t);
    let text = match text_for(texts, &name) {
        Some(x) => x,
        None => return Outcome::Fails,
    };
    let docs = match load_documents(text.as_str()) {
        Ok(d) => d,
        Err(e) => return Outcome::SchemaNotParsed(e),
    };
    let n = docs.len();
    if n == 0 {
        return Outcome::Fails;
    }
    let props = match properties(res) {
        Some(p) => p,
        None => return Outcome::Fails,
    };
    proof {
        let pd = parsed_documents(text@)->Ok_0;
        assert(pd[n - 1] == crate::parse::node_model(docs@[n - 1]));
    }
    let schema = value_from_yaml(&docs[n - 1]);
    let entries = match schema.as_mapping() {
        Some(m) => m,
        None => return Outcome::Fails,
    };
    if check_schema(entries) && check_data(props, entries) {
        Outcome::Fine
    } else {
        Outcome::Fails
    }
}

/// How cleaning the sections goes.
fn sections_check(sections: &Vec<(YamlValue, YamlValue)>, texts: &Vec<(String, String)>) -> (r: Outcome)
    ensures
        r@ == sections_outcome(entries_model(sections@), texts_model(texts@)),
{
    let ghost dm = entries_model(sections@);
    let ghost tm = texts_model(texts@);
    let mut i: usize = 0;
    proof {
        assert(dm.skip(0) =~= dm);
    }
    while i < sections.len()
        invariant
            i <= sections@.len(),
            dm == entries_model(sections@),
            tm == texts_model(texts@),
            sections_outcome(dm.skip(i as int), tm) == sections_outcome(dm, tm),
        decreases sections.len() - i,
    {
        proof {
            assert(dm.skip(i as int)[0] == dm[i as int]);
            assert(dm[i as int] == (sections@[i as int].0.model(), sections@[i as int].1.model()));
            assert(dm.skip(i as int).drop_first() =~= dm.skip(i + 1));
        }
        if crate::template::is_resources_section(&sections[i].0) {
            let resources = match sections[i].1.as_mapping() {
                Some(m) => m,
                None => return Outcome::Fails,
            };
            let ghost rm = entries_model(resources@);
            let mut j: usize = 0;
            proof {
                assert(rm.skip(0) =~= rm);
            }
            while j < resources.len()
                invariant
                    j <= resources@.len(),
                    rm == entries_model(resources@),
                    tm == texts_model(texts@),
                    resources_outcome(rm.skip(j as int), tm) == resources_outcome(rm, tm),
                    dm == entries_model(sections@),
                    dm.skip(i as int)[0] == dm[i as int],
                    i < dm.len(),
                    is_resources_key(dm[i as int].0),
                    dm[i as int].1 == YamlModel::Mapping(rm),
                    sections_outcome(dm.skip(i as int), tm) == sections_outcome(dm, tm),
                decreases resources.len() - j,
            {
                proof {
                    assert(rm.skip(j as int)[0] == rm[j as int]);
                    assert(rm[j as int] == (resources@[j as int].0.model(), resources@[j as int].1.model()));
                    assert(rm.skip(j as int).drop_first() =~= rm.skip(j + 1));
                }
                let o = resource_check(&resources[j].1, texts);
                match o {
                    Outcome::Fine => {},
                    _ => {
                        proof {
                            assert(resources_outcome(rm.skip(j as int), tm) == o@);
                            assert(section_outcome(dm[i as int], tm) == o@);
                            assert(sections_outcome(dm.skip(i as int), tm) == o@);
                        }
                        return o;
                    },
                }
                j = j + 1;
            }
            proof {
                assert(rm.skip(j as int).len() == 0);
            }
        }
        i = i + 1;
    }
    proof {
        assert(dm.skip(i as int).len() == 0);
    }
    Outcome::Fine
}

/// The schemas that the texts hold, by file name.
fn schema_table(texts: &Vec<(String, String)>) -> (r: Vec<(String, YamlValue)>)
    ensures
        schemas_model(r@) == schemas_from_texts(texts_model(texts@)),
{
    let mut out: Vec<(String, YamlValue)> = Vec::new();
    let mut i: usize = 0;
    while i < texts.len()
        invariant
            i <= texts@.len(),
            out@.len() == i,
            forall|j: int|
                0 <= j < i ==> #[trigger] schemas_model(out@)[j] == schemas_from_texts(
                    texts_model(texts@),
                )[j],
        decreases texts.len() - i,
    {
        let schema = match schema_from_text(texts[i].1.as_str()) {
            Ok(Some(s)) => s,
            _ => YamlValue::BadValue,
        };
        let ghost before = out@;
        let name = texts[i].0.clone();
        out.push((name, schema));
        proof {
            let tm = texts_model(texts@);
            assert(tm[i as int] == (texts@[i as int].0@, texts@[i as int].1@));
            assert(schemas_from_texts(tm)[i as int] == (
                tm[i as int].0,
                match last_document(tm[i as int].1) {
                    Some(m) => m,
                    None => YamlModel::BadValue,
                },
            ));
            assert(schemas_model(out@)[i as int] == (out@[i as int].0@, out@[i as int].1.model()));
            assert forall|j: int| 0 <= j < i + 1 implies #[trigger] schemas_model(out@)[j]
                == schemas_from_texts(tm)[j] by {
                if j < i {
                    assert(out@[j] == before[j]);
                    assert(schemas_model(before)[j] == schemas_model(out@)[j]);
                }
            }
        }
        i = i + 1;
    }
    proof {
        assert(schemas_model(out@) =~= schemas_from_texts(texts_model(texts@)));
    }
    out
}

/// Cleans a template given as text, with the schemas given as texts by
/// file name: an error, with the scan error, when the template does not
/// parse or when the schema text of a resource does not parse (the first
/// problem, in document order, decides); otherwise the last document of the template, cleaned with the
/// last document of each schema text.
pub fn clean_template_text(template: &str, schema_texts: &Vec<(String, String)>) -> (r: Result<
    YamlValue,
    CleanError,
>)
    requires
        text_cleanable(template@, texts_model(schema_texts@)),
    ensures
        cleaned_text(template@, texts_model(schema_texts@), r),
{
    let docs = match load_documents(template) {
        Ok(d) => d,
        Err(e) => return Err(CleanError::TemplateNotParsed(e)),
    };
    let n = docs.len();
    if n == 0 {
        proof {
            assert(false);
        }
        return Err(CleanError::TemplateNotParsed(ScanFailure { info: String::new(), index: 0, line: 0, col: 0 }));
    }
    proof {
        let pd = parsed_documents(template@)->Ok_0;
        assert(pd[n - 1] == crate::parse::node_model(docs@[n - 1]));
    }
    let doc = value_from_yaml(&docs[n - 1]);
    let sections = match doc.as_mapping() {
        Some(m) => m,
        None => {
            proof {
                assert(false);
            }
            return Err(CleanError::TemplateNotParsed(ScanFailure { info: String::new(), index: 0, line: 0, col: 0 }));
        },
    };
    match sections_check(sections, schema_texts) {
        Outcome::Fine => {},
        Outcome::SchemaNotParsed(e) => return Err(CleanError::SchemaNotParsed(e)),
        Outcome::Fails => {
            proof {
                assert(false);
            }
            return Err(CleanError::SchemaNotParsed(ScanFailure { info: String::new(), index: 0, line: 0, col: 0 }));
        },
    }
    let table = schema_table(schema_texts);
    proof {
        lemma_sections_fine(entries_model(sections@), texts_model(schema_texts@));
    }
    let out = clean_template(&doc, &table);
    proof {
        law_cleaned_template_well_formed(doc.model(), schemas_model(table@), out.model());
    }
    Ok(out)
}

/// `clean_template_text` where it applies; `None` exactly where the text
/// cannot be cleaned at all (no document, a last document that is not a
/// mapping, or a resource that fails before any schema text is found not
/// to parse).
pub fn try_clean_template_text(template: &str, schema_texts: &Vec<(String, String)>) -> (r: Option<
    Result<YamlValue, CleanError>,
>)
    ensures
        r is Some == text_cleanable(template@, texts_model(schema_texts@)),
        r matches Some(res) ==> cleaned_text(template@, texts_model(schema_texts@), res),
{
    let docs = match load_documents(template) {
        Ok(d) => d,
        Err(_) => return Some(clean_template_text(template, schema_texts)),
    };
    let n = docs.len();
    if n == 0 {
        return None;
    }
    proof {
        let pd = parsed_documents(template@)->Ok_0;
        assert(pd[n - 1] == crate::parse::node_model(docs@[n - 1]));
    }
    let doc = value_from_yaml(&docs[n - 1]);
    let sections = match doc.as_mapping() {
        Some(m) => m,
        None => return None,
    };
    match sections_check(sections, schema_texts) {
        Outcome::Fails => None,
        _ => Some(clean_template_text(template, schema_texts)),
    }
}

/// The schema files that cleaning a template text needs: those of the
/// resources of its last document, in order (none when it does not parse
/// or holds no document).
pub fn required_schema_files(template: &str) -> (r: Vec<String>)
    ensures
        crate::naming::views(r@) == match last_document(template@) {
            Some(d) => section_files(mapping_of(d)),
            None => Seq::empty(),
        },
{
    match schema_from_text(template) {
        Ok(Some(doc)) => schema_files(&doc),
        _ => {
            let r: Vec<String> = Vec::new();
            proof {
                assert(crate::naming::views(r@) =~= Seq::<Seq<char>>::empty());
            }
            r
        },
    }
}

/// A schema text is found by name wherever its entry stands: the lookup
/// gives the text of the first entry with that name.
pub proof fn law_text_found_by_name(texts: Seq<(Seq<char>, Seq<char>)>, name: Seq<char>, i: int)
    requires
        0 <= i < texts.len(),
        texts[i].0 == name,
        forall|k: int| 0 <= k < i ==> texts[k].0 != name,
    ensures
        text_named(texts, name) == Some(texts[i].1),
    decreases i,
{
    if i > 0 {
        assert(texts[0].0 != name);
        assert forall|k: int| 0 <= k < i - 1 implies texts.drop_first()[k].0 != name by {
            assert(texts.drop_first()[k] == texts[k + 1]);
        }
        law_text_found_by_name(texts.drop_first(), name, i - 1);
        assert(texts.drop_first()[i - 1] == texts[i]);
    }
}

/// The lookup of a schema text finds nothing only when no entry has the
/// name.
pub proof fn law_text_missing_only_when_unnamed(texts: Seq<(Seq<char>, Seq<char>)>, name: Seq<char>)
    ensures
        text_named(texts, name) is None <==> forall|k: int| 0 <= k < texts.len() ==> texts[k].0 != name,
    decreases texts.len(),
{
    if texts.len() > 0 {
        law_text_missing_only_when_unnamed(texts.drop_first(), name);
        if texts[0].0 != name {
            assert forall|k: int| 0 <= k < texts.len() && texts[k].0 == name implies k > 0
                && texts.drop_first()[k - 1].0 == name by {
                assert(texts.drop_first()[k - 1] == texts[k]);
            }
            assert forall|k: int| 0 <= k < texts.len() - 1 && texts.drop_first()[k].0 == name implies texts[k
                + 1].0 == name by {
                assert(texts.drop_first()[k] == texts[k + 1]);
            }
        }
    }
}

/// A resource goes fine when the first schema text named after its type
/// parses, its last document is a usable schema mapping, and that schema
/// declares every property of the resource; whether the schema has a
/// `dependentExcluded` entry plays no part.
pub proof fn law_usable_schema_cleans(
    res: YamlModel,
    texts: Seq<(Seq<char>, Seq<char>)>,
    t: Seq<char>,
    i: int,
    d: Seq<YamlModel>,
)
    requires
        resource_type_of(res) == Some(t),
        0 <= i < texts.len(),
        texts[i].0 == schema_file_name(t),
        forall|k: int| 0 <= k < i ==> texts[k].0 != schema_file_name(t),
        parsed_documents(texts[i].1) == Ok::<Seq<YamlModel>, (Seq<char>, usize, usize, usize)>(d),
        d.len() > 0,
        d.last() is Mapping,
        resource_properties(res) is Some,
        schema_ok(mapping_of(d.last())),
        data_ok(resource_properties(res)->0, mapping_of(d.last())),
    ensures
        resource_outcome(res, texts) == Verdict::Fine,
{
    law_text_found_by_name(texts, schema_file_name(t), i);
}

/// In particular a resource whose schema has a `properties` mapping with
/// string keys that declares every property of the resource, and no
/// `dependentExcluded` entry, goes fine.
pub proof fn law_schema_without_exclusions_cleans(
    res: YamlModel,
    texts: Seq<(Seq<char>, Seq<char>)>,
    t: Seq<char>,
    i: int,
    d: Seq<YamlModel>,
    p: int,
)
    requires
        resource_type_of(res) == Some(t),
        0 <= i < texts.len(),
        texts[i].0 == schema_file_name(t),
        forall|k: int| 0 <= k < i ==> texts[k].0 != schema_file_name(t),
        parsed_documents(texts[i].1) == Ok::<Seq<YamlModel>, (Seq<char>, usize, usize, usize)>(d),
        d.len() > 0,
        d.last() is Mapping,
        0 <= p < mapping_of(d.last()).len(),
        mapping_of(d.last())[p].0 == YamlModel::Text("properties"@),
        mapping_of(d.last())[p].1 is Mapping,
        forall|k: int| 0 <= k < p ==> mapping_of(d.last())[k].0 != YamlModel::Text("properties"@),
        forall|j: int|
            0 <= j < mapping_of(d.last())[p].1->Mapping_0.len() ==> (#[trigger] mapping_of(
                d.last(),
            )[p].1->Mapping_0[j]).0 is Text,
        forall|k: int|
            0 <= k < mapping_of(d.last()).len() ==> mapping_of(d.last())[k].0 != YamlModel::Text(
                "dependentExcluded"@,
            ),
        resource_properties(res) is Some,
        data_ok(resource_properties(res)->0, mapping_of(d.last())),
    ensures
        resource_outcome(res, texts) == Verdict::Fine,
{
    law_schema_without_exclusions_is_usable(mapping_of(d.last()), p);
    law_usable_schema_cleans(res, texts, t, i, d);
}

/// A section not keyed `Resources` never stops the cleaning of a text.
pub proof fn law_other_sections_go_fine(section: (YamlModel, YamlModel), texts: Seq<(Seq<char>, Seq<char>)>)
    requires
        section.0 != YamlModel::Text("Resources"@),
    ensures
        section_outcome(section, texts) == Verdict::Fine,
{
    law_resources_key(section.0);
}

} // verus!
