//! YAML documents as plain values, read with serde_yaml, and the lookups
//! that a configuration check makes in them.

use vstd::prelude::*;

verus! {

#[verifier::external_type_specification]
#[verifier::external_body]
pub struct ExYamlValue(serde_yaml::Value);

/// One node of a YAML document.
pub enum Yaml {
    Null,
    Bool(bool),
    /// A number, in the form serde_yaml displays it.
    Number(String),
    Text(String),
    Sequence(Vec<Yaml>),
    /// The entries of a mapping, in document order.
    Mapping(Vec<(Yaml, Yaml)>),
    /// A value with a tag such as `!Sampling`; the tag is kept as displayed.
    Tagged(String, Box<Yaml>),
}

/// The document that serde_yaml reads from a text, or the message of its
/// error.
pub uninterp spec fn yaml_document(text: Seq<char>) -> Result<Yaml, Seq<char>>;

/// Converts a node read by serde_yaml into a `Yaml`, variant by variant.
/// Nothing is stated of the result: the node it reads is opaque here, and
/// `parse_yaml`, which holds the one call of it, states what comes out.
#[verifier::external_body]
fn yaml_from_value(v: serde_yaml::Value) -> Yaml {
    match v {
        serde_yaml::Value::Null => Yaml::Null,
        serde_yaml::Value::Bool(b) => Yaml::Bool(b),
        serde_yaml::Value::Number(n) => Yaml::Number(n.to_string()),
        serde_yaml::Value::String(s) => Yaml::Text(s),
        serde_yaml::Value::Sequence(s) => Yaml::Sequence(s.into_iter().map(yaml_from_value).collect()),
        serde_yaml::Value::Mapping(m) => Yaml::Mapping(
            m.into_iter().map(|(k, v)| (yaml_from_value(k), yaml_from_value(v))).collect(),
        ),
        serde_yaml::Value::Tagged(t) => Yaml::Tagged(t.tag.to_string(), Box::new(yaml_from_value(t.value))),
    }
}

/// Reads a YAML document with `serde_yaml::from_str::<serde_yaml::Value>`.
/// The contract claims only that the outcome is a function of the text:
/// the document it describes, or the text of serde_yaml's error.
#[verifier::external_body]
pub(crate) fn parse_yaml(text: &str) -> (r: Result<Yaml, String>)
    ensures
        match r {
            Ok(doc) => yaml_document(text@) == Ok::<Yaml, Seq<char>>(doc),
            Err(e) => yaml_document(text@) == Err::<Yaml, Seq<char>>(e@),
        },
{
    match serde_yaml::from_str::<serde_yaml::Value>(text) {
        Ok(v) => Ok(yaml_from_value(v)),
        Err(e) => Err(e.to_string()),
    }
}

/// The node with all its tags removed.
pub open spec fn untagged(y: Yaml) -> Yaml
    decreases y,
{
    match y {
        Yaml::Tagged(_, inner) => untagged(*inner),
        _ => y,
    }
}

/// Whether `k` is the (untagged) text key `key`.
pub open spec fn is_text_key(k: Yaml, key: Seq<char>) -> bool {
    match k {
        Yaml::Text(s) => s@ == key,
        _ => false,
    }
}

/// The value of the first entry whose key is the text `key` (a mapping
/// read from a document holds each key once).
pub open spec fn lookup(entries: Seq<(Yaml, Yaml)>, key: Seq<char>) -> Option<Yaml>
    decreases entries.len(),
{
    if entries.len() == 0 {
        None
    } else if is_text_key(entries[0].0, key) {
        Some(entries[0].1)
    } else {
        lookup(entries.drop_first(), key)
    }
}

/// `Value::get` with a text index: the value under `key` when `y` is
/// (a tagged) mapping.
pub open spec fn yaml_get(y: Yaml, key: Seq<char>) -> Option<Yaml> {
    match untagged(y) {
        Yaml::Mapping(m) => lookup(m@, key),
        _ => None,
    }
}

/// `Value::as_str`: the text when `y` is (a tagged) string.
pub open spec fn yaml_text(y: Yaml) -> Option<Seq<char>> {
    match untagged(y) {
        Yaml::Text(s) => Some(s@),
        _ => None,
    }
}

/// `Value::as_sequence`: the items when `y` is (a tagged) sequence.
pub open spec fn yaml_items(y: Yaml) -> Option<Seq<Yaml>> {
    match untagged(y) {
        Yaml::Sequence(v) => Some(v@),
        _ => None,
    }
}

/// The node behind an optional reference.
pub open spec fn deref_option(o: Option<&Yaml>) -> Option<Yaml> {
    match o {
        Some(y) => Some(*y),
        None => None,
    }
}

impl Yaml {
    /// The node with all its tags removed.
    pub fn untag(&self) -> (r: &Yaml)
        ensures
            *r == untagged(*self),
        decreases self,
    {
        match self {
            Yaml::Tagged(_, inner) => inner.untag(),
            _ => self,
        }
    }

    /// The value under the text key `key`, when `self` is a mapping.
    pub fn get(&self, key: &str) -> (r: Option<&Yaml>)
        ensures
            deref_option(r) == yaml_get(*self, key@),
    {
        match self.untag() {
            Yaml::Mapping(m) => {
                let k = key.to_owned();
                let mut i: usize = 0;
                assert(m@.skip(0) =~= m@);
                while i < m.len()
                    invariant
                        i <= m@.len(),
                        k@ == key@,
                        yaml_get(*self, key@) == lookup(m@, key@),
                        lookup(m@, key@) == lookup(m@.skip(i as int), key@),
                    decreases m@.len() - i,
                {
                    let entry = &m[i];
                    assert(m@.skip(i as int)[0] == *entry);
                    if let Yaml::Text(s) = &entry.0 {
                        if *s == k {
                            assert(is_text_key(m@.skip(i as int)[0].0, key@));
                            return Some(&entry.1);
                        }
                    }
                    assert(m@.skip(i as int).drop_first() =~= m@.skip(i + 1));
                    i = i + 1;
                }
                assert(m@.skip(i as int) =~= Seq::<(Yaml, Yaml)>::empty());
                None
            },
            _ => None,
        }
    }

    /// The text, when `self` is a string.
    pub fn as_str(&self) -> (r: Option<&str>)
        ensures
            match r {
                Some(t) => yaml_text(*self) == Some(t@),
                None => yaml_text(*self) is None,
            },
    {
        match self.untag() {
            Yaml::Text(s) => Some(s.as_str()),
            _ => None,
        }
    }

    /// The items, when `self` is a sequence.
    pub fn as_sequence(&self) -> (r: Option<&Vec<Yaml>>)
        ensures
            match r {
                Some(v) => yaml_items(*self) == Some(v@),
                None => yaml_items(*self) is None,
            },
    {
        match self.untag() {
            Yaml::Sequence(v) => Some(v),
            _ => None,
        }
    }
}

} // verus!
