//! Answers the requests of a typed decoder against one node of the key tree.
use vstd::prelude::*;

use crate::config::{coerced_key, Config};
use crate::error::EnvDeserializationError;
use crate::order::{sort_by_index, sort_children};
use crate::value::{children_of, lemma_children_of, path_view, Tree, Value};

verus! {

/// A node of the key tree together with the settings it is decoded under.
pub struct Parser<'a> {
    pub config: &'a Config,
    pub current: Value,
}

/// What an enum request finds at a node.
pub enum EnumShape<'a> {
    /// A single value: the name of a variant without payload.
    Unit(String),
    /// Named children: the variant names with their payloads.
    Payload(Vec<(String, Parser<'a>)>),
}

/// The order in which the children of a group become sequence elements.
pub open spec fn element_order(ordered: bool, cs: Seq<(Seq<char>, Tree)>) -> Seq<
    (Seq<char>, Tree),
> {
    if ordered {
        sort_by_index(cs)
    } else {
        cs
    }
}

/// The children with each key renamed to the expected name it matches.
pub open spec fn coerced_children(
    case_sensitive: bool,
    names: Seq<Seq<char>>,
    cs: Seq<(Seq<char>, Tree)>,
) -> Seq<(Seq<char>, Tree)> {
    cs.map_values(|c: (Seq<char>, Tree)| (coerced_key(case_sensitive, names, c.0), c.1))
}

/// Each entry names one child and wraps its node under `config`.
pub open spec fn entries_are<'a>(
    r: Seq<(String, Parser<'a>)>,
    cs: Seq<(Seq<char>, Tree)>,
    config: &'a Config,
) -> bool {
    &&& r.len() == cs.len()
    &&& forall|i: int|
        0 <= i < r.len() ==> (#[trigger] r[i]).0@ == cs[i].0 && r[i].1.current@ == cs[i].1
            && r[i].1.config == config
}

/// Each element wraps one child's node under `config`.
pub open spec fn elements_are<'a>(
    r: Seq<Parser<'a>>,
    cs: Seq<(Seq<char>, Tree)>,
    config: &'a Config,
) -> bool {
    &&& r.len() == cs.len()
    &&& forall|i: int|
        0 <= i < r.len() ==> (#[trigger] r[i]).current@ == cs[i].1 && r[i].config == config
}

/// The children as named entries, each wrapped under `config`.
fn wrap_entries<'a>(config: &'a Config, children: Vec<(String, Value)>) -> (r: Vec<
    (String, Parser<'a>),
>)
    ensures
        entries_are(r@, children_of(children@), config),
{
    proof {
        lemma_children_of(children@);
    }
    let ghost cs = children_of(children@);
    let mut r: Vec<(String, Parser<'a>)> = Vec::new();
    for child in it: children
        invariant
            it.seq() == children@,
            cs == children_of(children@),
            cs.len() == children@.len(),
            forall|j: int|
                0 <= j < children@.len() ==> #[trigger] cs[j] == (
                    children@[j].0@,
                    children@[j].1@,
                ),
            r@.len() == it.index(),
            forall|i: int|
                0 <= i < r@.len() ==> (#[trigger] r@[i]).0@ == cs[i].0 && r@[i].1.current@
                    == cs[i].1 && r@[i].1.config == config,
    {
        let (key, value) = child;
        r.push((key, Parser { config, current: value }));
    }
    r
}

/// The children's nodes, each wrapped under `config`.
fn wrap_elements<'a>(config: &'a Config, children: Vec<(String, Value)>) -> (r: Vec<Parser<'a>>)
    ensures
        elements_are(r@, children_of(children@), config),
{
    proof {
        lemma_children_of(children@);
    }
    let ghost cs = children_of(children@);
    let mut r: Vec<Parser<'a>> = Vec::new();
    for child in it: children
        invariant
            it.seq() == children@,
            cs == children_of(children@),
            cs.len() == children@.len(),
            forall|j: int|
                0 <= j < children@.len() ==> #[trigger] cs[j] == (
                    children@[j].0@,
                    children@[j].1@,
                ),
            r@.len() == it.index(),
            forall|i: int|
                0 <= i < r@.len() ==> (#[trigger] r@[i]).current@ == cs[i].1 && r@[i].config
                    == config,
    {
        let (_key, value) = child;
        r.push(Parser { config, current: value });
    }
    r
}

/// The children with their keys renamed to the expected names they match.
fn coerce_children(config: &Config, children: Vec<(String, Value)>, names: &[&str]) -> (r: Vec<
    (String, Value),
>)
    ensures
        children_of(r@) == coerced_children(
            config@.case_sensitive,
            path_view(names@),
            children_of(children@),
        ),
{
    let r = config.maybe_coerce_case(children, names);
    proof {
        lemma_children_of(r@);
        lemma_children_of(children@);
        assert(children_of(r@) =~= coerced_children(
            config@.case_sensitive,
            path_view(names@),
            children_of(children@),
        ));
    }
    r
}

impl<'a> Parser<'a> {
    /// Wraps a node for decoding under `config`.
    pub fn new(config: &'a Config, current: Value) -> (r: Self)
        ensures
            r.config == config,
            r.current == current,
    {
        Parser { config, current }
    }

    /// Whether the node is a single value.
    pub fn is_simple(&self) -> (r: bool)
        ensures
            r == self.current is Simple,
    {
        match &self.current {
            Value::Simple(_) => true,
            Value::Nested(_) => false,
        }
    }

    /// The single value, for a request of a primitive or a string; a group
    /// cannot answer one.
    pub fn into_scalar(self) -> (r: Result<String, EnvDeserializationError>)
        ensures
            match self.current@ {
                Tree::Leaf(s) => r matches Ok(v) && v@ == s,
                Tree::Branch(_) => r == Err::<String, EnvDeserializationError>(
                    EnvDeserializationError::InvalidNestedValues,
                ),
            },
    {
        match self.current {
            Value::Simple(s) => Ok(s),
            Value::Nested(_) => Err(EnvDeserializationError::InvalidNestedValues),
        }
    }

    /// The elements of a sequence request: a single value is a sequence of
    /// one; the children of a group are its elements, sorted by their keys
    /// where arrays are ordered and in their own order otherwise.
    pub fn into_seq(self) -> (r: Vec<Parser<'a>>)
        ensures
            match self.current@ {
                Tree::Leaf(_) => r@.len() == 1 && r@[0].current == self.current && r@[0].config
                    == self.config,
                Tree::Branch(cs) => elements_are(
                    r@,
                    element_order(self.config@.ordered_arrays, cs),
                    self.config,
                ),
            },
    {
        let config = self.config;
        match self.current {
            Value::Simple(s) => vec![Parser { config, current: Value::Simple(s) }],
            Value::Nested(children) => {
                if config.orders_arrays() {
                    let sorted = sort_children(children);
                    wrap_elements(config, sorted)
                } else {
                    wrap_elements(config, children)
                }
            },
        }
    }

    /// The entries of a map request, in the order of the children; a single
    /// value cannot answer one.
    pub fn into_map(self) -> (r: Result<Vec<(String, Parser<'a>)>, EnvDeserializationError>)
        ensures
            match self.current@ {
                Tree::Leaf(_) => r == Err::<Vec<(String, Parser<'a>)>, EnvDeserializationError>(
                    EnvDeserializationError::UnsupportedValue,
                ),
                Tree::Branch(cs) => r matches Ok(v) && entries_are(v@, cs, self.config),
            },
    {
        let config = self.config;
        match self.current {
            Value::Simple(_) => Err(EnvDeserializationError::UnsupportedValue),
            Value::Nested(children) => Ok(wrap_entries(config, children)),
        }
    }

    /// The entries of a struct request with the given field names: as for a
    /// map, with each key renamed to the field it matches up to ASCII case
    /// where matching is case insensitive.
    pub fn into_struct(self, fields: &[&str]) -> (r: Result<
        Vec<(String, Parser<'a>)>,
        EnvDeserializationError,
    >)
        ensures
            match self.current@ {
                Tree::Leaf(_) => r == Err::<Vec<(String, Parser<'a>)>, EnvDeserializationError>(
                    EnvDeserializationError::UnsupportedValue,
                ),
                Tree::Branch(cs) => r matches Ok(v) && entries_are(
                    v@,
                    coerced_children(self.config@.case_sensitive, path_view(fields@), cs),
                    self.config,
                ),
            },
    {
        let config = self.config;
        match self.current {
            Value::Simple(_) => Err(EnvDeserializationError::UnsupportedValue),
            Value::Nested(children) => {
                let renamed = coerce_children(config, children, fields);
                Ok(wrap_entries(config, renamed))
            },
        }
    }

    /// What an enum request with the given variant names finds: a single
    /// value names a variant without payload; a group holds variant names,
    /// renamed as for a struct, with their payloads.
    pub fn into_enum(self, variants: &[&str]) -> (r: EnumShape<'a>)
        ensures
            match self.current@ {
                Tree::Leaf(s) => r matches EnumShape::Unit(name) && name@ == s,
                Tree::Branch(cs) => r matches EnumShape::Payload(v) && entries_are(
                    v@,
                    coerced_children(self.config@.case_sensitive, path_view(variants@), cs),
                    self.config,
                ),
            },
    {
        let config = self.config;
        match self.current {
            Value::Simple(s) => EnumShape::Unit(s),
            Value::Nested(children) => {
                let renamed = coerce_children(config, children, variants);
                EnumShape::Payload(wrap_entries(config, renamed))
            },
        }
    }
}

} // verus!
