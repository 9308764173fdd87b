# cfn_clean

Cleans CloudFormation templates: within each resource, of every set of
properties that the resource type's schema declares mutually exclusive
(`dependentExcluded`), only the last one is kept.

The library under `src/` is verified with Verus:

- `entries.rs`: ordered key/value sequences, the model of an insertion-ordered map.
- `index_map.rs`: the `indexmap::IndexMap` calls the library makes, with their contracts.
- `bimap.rs`: a bidirectional map between indices and names; inserting a pair
  displaces the pairs of its two values, and the pairs keep their insertion order.
- `union_find.rs`: a union-find over names with path compression, proved against a
  partition model (each name mapped to its representative).
- `yaml.rs`: YAML trees as plain values, with their mathematical model.
- `parse.rs`: YAML text parsed with `yaml_rust2` into those trees.
- `naming.rs`: schema file names for resource types.
- `template.rs`: the cleaning of properties and of whole templates.
- `template_text.rs`: the cleaning of a template given as text, with its schemas
  given as texts by file name.

`app/` reads the schema files embedded with `include_dir` from
`src/resources/schemas`, hands their texts to the library, and converts the
library's result back to a `yaml_rust2` value.
