//! A plain-value model of a parsed YAML document, as far as the task catalog reads it.

use saphyr::{LoadableYamlNode, Scalar, ScanError, Yaml};
use vstd::prelude::*;
use vstd::string::StringExecFns;

verus! {

/// A node as the YAML parser builds it.
#[verifier::external_type_specification]
#[verifier::external_body]
pub struct ExYaml<'input>(Yaml<'input>);

/// The parser's report of malformed input.
#[verifier::external_type_specification]
#[verifier::external_body]
pub struct ExScanError(ScanError);

/// The documents that the YAML parser reads from `text`, each as a [`YamlNode`];
/// `None` where the parser rejects the text.
pub uninterp spec fn yaml_documents(text: Seq<char>) -> Option<Seq<YamlNode>>;

/// One node of a YAML document.
///
/// Only what the catalog distinguishes is kept apart: string scalars, sequences and
/// mappings. Mappings keep their entries in document order.
#[derive(Debug)]
pub enum YamlNode {
    Null,
    Boolean(bool),
    Integer(i64),
    Text(String),
    Sequence(Vec<YamlNode>),
    Mapping(Vec<(YamlNode, YamlNode)>),
    /// Anything else: floating-point scalars, tagged nodes, aliases, invalid values.
    Other,
}

impl YamlNode {
    /// Whether the node is the string scalar `text`.
    pub open spec fn is_text(&self, text: Seq<char>) -> bool {
        match *self {
            YamlNode::Text(s) => s@ == text,
            _ => false,
        }
    }

    /// The characters of a string scalar.
    pub open spec fn spec_as_str(&self) -> Option<Seq<char>> {
        match *self {
            YamlNode::Text(s) => Some(s@),
            _ => None,
        }
    }

    /// The string held by a string scalar, `None` for every other node.
    pub fn as_str(&self) -> (res: Option<&String>)
        ensures
            res.is_some() == self.spec_as_str().is_some(),
            res matches Some(s) ==> self.spec_as_str() == Some(s@) && *self == YamlNode::Text(*s),
    {
        match self {
            YamlNode::Text(s) => Some(s),
            _ => None,
        }
    }

    /// The items of a sequence node, `None` for every other node.
    pub fn as_sequence(&self) -> (res: Option<&Vec<YamlNode>>)
        ensures
            match *self {
                YamlNode::Sequence(items) => res == Some(&items),
                _ => res is None,
            },
    {
        match self {
            YamlNode::Sequence(items) => Some(items),
            _ => None,
        }
    }

    /// The entries of a mapping node, `None` for every other node.
    pub fn as_mapping(&self) -> (res: Option<&Vec<(YamlNode, YamlNode)>>)
        ensures
            match *self {
                YamlNode::Mapping(entries) => res == Some(&entries),
                _ => res is None,
            },
    {
        match self {
            YamlNode::Mapping(entries) => Some(entries),
            _ => None,
        }
    }
}

/// Copies a node built by the parser, variant by variant. Trusted: the body is not
/// verified. Scalars other than null, booleans, integers and strings, and every tagged,
/// aliased or invalid node become [`YamlNode::Other`].
#[verifier::external_body]
fn node_from_yaml(node: &Yaml) -> YamlNode {
    match node {
        Yaml::Value(Scalar::Null) => YamlNode::Null,
        Yaml::Value(Scalar::Boolean(b)) => YamlNode::Boolean(*b),
        Yaml::Value(Scalar::Integer(i)) => YamlNode::Integer(*i),
        Yaml::Value(Scalar::String(s)) => YamlNode::Text(s.to_string()),
        Yaml::Sequence(items) => YamlNode::Sequence(items.iter().map(node_from_yaml).collect()),
        Yaml::Mapping(entries) => YamlNode::Mapping(
            entries.iter().map(|(k, v)| (node_from_yaml(k), node_from_yaml(v))).collect(),
        ),
        _ => YamlNode::Other,
    }
}

/// Parses `text` with `saphyr`'s `Yaml::load_from_str`. Trusted: the result is the
/// parser's, named [`yaml_documents`]; nothing else is claimed of it.
#[verifier::external_body]
pub(crate) fn load_documents(text: &str) -> (res: Result<Vec<YamlNode>, ScanError>)
    ensures
        res matches Ok(docs) ==> yaml_documents(text@) == Some(docs@),
        res is Err ==> yaml_documents(text@) is None,
{
    let docs = Yaml::load_from_str(text)?;
    Ok(docs.iter().map(node_from_yaml).collect())
}

/// Position of the first entry whose key is the string scalar `key`.
pub open spec fn mapping_index(entries: Seq<(YamlNode, YamlNode)>, key: Seq<char>) -> Option<int>
    decreases entries.len(),
{
    if entries.len() == 0 {
        None
    } else if entries.last().0.is_text(key) && mapping_index(entries.drop_last(), key) is None {
        Some(entries.len() - 1)
    } else {
        mapping_index(entries.drop_last(), key)
    }
}

/// `mapping_index` finds the first matching entry, and only a matching one.
pub proof fn lemma_mapping_index(entries: Seq<(YamlNode, YamlNode)>, key: Seq<char>)
    ensures
        match mapping_index(entries, key) {
            Some(i) => 0 <= i < entries.len() && entries[i].0.is_text(key) && forall|j: int|
                0 <= j < i ==> !(#[trigger] entries[j]).0.is_text(key),
            None => forall|j: int| 0 <= j < entries.len() ==> !(#[trigger] entries[j]).0.is_text(key),
        },
    decreases entries.len(),
{
    if entries.len() > 0 {
        let front = entries.drop_last();
        lemma_mapping_index(front, key);
        assert forall|j: int| 0 <= j < front.len() implies front[j] == entries[j] by {}
        match mapping_index(front, key) {
            Some(i) => {
                assert(front[i] == entries[i]);
            },
            None => {
                assert forall|j: int| 0 <= j < front.len() implies !(#[trigger] entries[j]).0.is_text(
                    key,
                ) by {
                    assert(front[j] == entries[j]);
                }
            },
        }
    }
}

/// Whether a string equals a string slice, character by character.
pub fn text_equals(a: &String, b: &str) -> (res: bool)
    ensures
        res == (a@ == b@),
{
    let owned = String::from_str(b);
    *a == owned
}

/// Looks up the value stored under the string key `key`.
pub fn mapping_get<'a>(entries: &'a Vec<(YamlNode, YamlNode)>, key: &str) -> (res: Option<&'a YamlNode>)
    ensures
        match mapping_index(entries@, key@) {
            Some(i) => res == Some(&entries@[i].1),
            None => res is None,
        },
{
    let mut i: usize = 0;
    while i < entries.len()
        invariant
            i <= entries.len(),
            forall|j: int| 0 <= j < i ==> !(#[trigger] entries@[j]).0.is_text(key@),
        decreases entries.len() - i,
    {
        let found = match &entries[i].0 {
            YamlNode::Text(s) => text_equals(s, key),
            _ => false,
        };
        if found {
            proof {
                lemma_mapping_index(entries@, key@);
            }
            return Some(&entries[i].1);
        }
        i += 1;
    }
    proof {
        lemma_mapping_index(entries@, key@);
    }
    None
}

} // verus!
