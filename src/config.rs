//! How keys are read: the separator between path segments, an optional prefix
//! to strip, case sensitivity and the ordering of array elements.
use vstd::prelude::*;

use crate::error::EnvDeserializationError;
use crate::text::{
    ascii_lower_seq, eq_ascii_nocase, eq_ignore_ascii_case, split_key, split_seq, starts_with, strip_prefix, to_ascii_lowercase, views,
};
use crate::parser::Parser;
use crate::value::{path_view, tree_insert, Tree, Value};

verus! {

/// The settings of one decoding.
#[derive(Debug, Clone)]
pub struct Config {
    prefix: Option<String>,
    case_sensitive: bool,
    separator: String,
    ordered_arrays: bool,
}

/// The settings as plain values.
pub ghost struct ConfigView {
    pub prefix: Option<Seq<char>>,
    pub case_sensitive: bool,
    pub separator: Seq<char>,
    pub ordered_arrays: bool,
}

impl View for Config {
    type V = ConfigView;

    closed spec fn view(&self) -> ConfigView {
        ConfigView {
            prefix: match self.prefix {
                Some(p) => Some(p@),
                None => None,
            },
            case_sensitive: self.case_sensitive,
            separator: self.separator@,
            ordered_arrays: self.ordered_arrays,
        }
    }
}

/// The separator used unless another is configured: a double underscore.
pub open spec fn default_separator() -> Seq<char> {
    seq!['_', '_']
}

/// The pairs as plain values.
pub open spec fn pairs_view(pairs: Seq<(String, Value)>) -> Seq<(Seq<char>, Tree)> {
    pairs.map_values(|p: (String, Value)| (p.0@, p.1@))
}

/// The tree that the pairs build, inserted one after the other into an empty
/// group, each at the path that its key splits into; or the rest of the path
/// of the first insertion that fails.
pub open spec fn build_tree(pairs: Seq<(Seq<char>, Tree)>, sep: Seq<char>) -> Result<
    Tree,
    Seq<Seq<char>>,
>
    decreases pairs.len(),
{
    if pairs.len() == 0 {
        Ok(Tree::Branch(Seq::empty()))
    } else {
        match build_tree(pairs.drop_last(), sep) {
            Ok(t) => tree_insert(t, split_seq(pairs.last().0, sep), pairs.last().1),
            Err(e) => Err(e),
        }
    }
}

/// The key that reaches the tree builder: lowercased unless case sensitive,
/// then stripped of the prefix (lowercased the same way); `None` for a key
/// without the prefix.
pub open spec fn normalized_key(c: ConfigView, key: Seq<char>) -> Option<Seq<char>> {
    let k = if c.case_sensitive {
        key
    } else {
        ascii_lower_seq(key)
    };
    match c.prefix {
        None => Some(k),
        Some(p) => {
            let pre = if c.case_sensitive {
                p
            } else {
                ascii_lower_seq(p)
            };
            if starts_with(k, pre) {
                Some(k.skip(pre.len() as int))
            } else {
                None
            }
        },
    }
}

/// The raw pairs as they reach the tree builder: keys normalized, pairs
/// without the prefix left out, values as single values.
pub open spec fn prepared_pairs(c: ConfigView, pairs: Seq<(Seq<char>, Seq<char>)>) -> Seq<
    (Seq<char>, Tree),
>
    decreases pairs.len(),
{
    if pairs.len() == 0 {
        Seq::empty()
    } else {
        let rest = prepared_pairs(c, pairs.drop_last());
        match normalized_key(c, pairs.last().0) {
            Some(k) => rest.push((k, Tree::Leaf(pairs.last().1))),
            None => rest,
        }
    }
}

/// The raw pairs as plain values.
pub open spec fn raw_pairs_view(pairs: Seq<(String, String)>) -> Seq<(Seq<char>, Seq<char>)> {
    pairs.map_values(|p: (String, String)| (p.0@, p.1@))
}

/// The position of the first name equal to `key` up to ASCII case, or the
/// number of names where none is.
pub open spec fn nocase_index(names: Seq<Seq<char>>, key: Seq<char>) -> int
    decreases names.len(),
{
    if names.len() == 0 {
        0
    } else if eq_ascii_nocase(names[0], key) {
        0
    } else {
        1 + nocase_index(names.drop_first(), key)
    }
}

pub proof fn lemma_nocase_index(names: Seq<Seq<char>>, key: Seq<char>)
    ensures
        0 <= nocase_index(names, key) <= names.len(),
        nocase_index(names, key) < names.len() ==> eq_ascii_nocase(
            names[nocase_index(names, key)],
            key,
        ),
        forall|j: int| 0 <= j < nocase_index(names, key) ==> !eq_ascii_nocase(names[j], key),
    decreases names.len(),
{
    if names.len() > 0 && !eq_ascii_nocase(names[0], key) {
        lemma_nocase_index(names.drop_first(), key);
        assert forall|j: int| 0 <= j < nocase_index(names, key) implies !eq_ascii_nocase(
            names[j],
            key,
        ) by {
            if j > 0 {
                assert(names[j] == names.drop_first()[j - 1]);
            }
        }
    }
}

/// The key under which a struct field or enum variant is looked up: when
/// matching is case insensitive, the first expected name equal to it up to
/// ASCII case; otherwise, or where there is none, the key itself.
pub open spec fn coerced_key(case_sensitive: bool, names: Seq<Seq<char>>, key: Seq<char>) -> Seq<
    char,
> {
    if case_sensitive {
        key
    } else {
        let j = nocase_index(names, key);
        if j < names.len() {
            names[j]
        } else {
            key
        }
    }
}

/// Once a prefix of the pairs fails, all of them fail the same way.
pub proof fn lemma_build_tree_err(pairs: Seq<(Seq<char>, Tree)>, n: int, sep: Seq<char>)
    requires
        0 <= n <= pairs.len(),
        build_tree(pairs.take(n), sep) is Err,
    ensures
        build_tree(pairs, sep) == build_tree(pairs.take(n), sep),
    decreases pairs.len() - n,
{
    if n < pairs.len() {
        assert(pairs.take(n + 1).drop_last() =~= pairs.take(n));
        lemma_build_tree_err(pairs, n + 1, sep);
    } else {
        assert(pairs.take(n) =~= pairs);
    }
}

/// The path segments as borrowed strings.
fn as_strs(v: &Vec<String>) -> (r: Vec<&str>)
    ensures
        path_view(r@) == views(v@),
{
    let mut r: Vec<&str> = Vec::new();
    let mut i: usize = 0;
    while i < v.len()
        invariant
            i <= v.len(),
            path_view(r@) == views(v@.take(i as int)),
        decreases v.len() - i,
    {
        let ghost prev = r@;
        r.push(v[i].as_str());
        assert(path_view(r@) =~= path_view(prev).push(v@[i as int]@));
        i = i + 1;
        assert(views(v@.take(i as int)) =~= views(v@.take(i - 1)).push(v@[i - 1]@));
    }
    assert(v@.take(i as int) =~= v@);
    r
}

impl Default for Config {
    fn default() -> (r: Self)
        ensures
            r@ == (ConfigView {
                prefix: None,
                case_sensitive: false,
                separator: default_separator(),
                ordered_arrays: true,
            }),
    {
        Self::new()
    }
}

impl Config {
    /// No prefix, case insensitive, `__` as separator, arrays ordered by key.
    pub fn new() -> (r: Self)
        ensures
            r@ == (ConfigView {
                prefix: None,
                case_sensitive: false,
                separator: default_separator(),
                ordered_arrays: true,
            }),
    {
        let mut separator = String::new();
        separator.push('_');
        separator.push('_');
        proof {
            assert(separator@ =~= default_separator());
        }
        Self { prefix: None, case_sensitive: false, separator, ordered_arrays: true }
    }

    /// Sets the separator between the segments of a key path.
    pub fn with_separator(&mut self, separator: &str) -> (r: &mut Self)
        ensures
            r@ == (ConfigView { separator: separator@, ..old(self)@ }),
            *final(self) == *final(r),
    {
        self.separator = separator.to_owned();
        self
    }

    /// Sets the prefix that keys must carry; it is stripped from them.
    pub fn with_prefix(&mut self, prefix: &str) -> (r: &mut Self)
        ensures
            r@ == (ConfigView { prefix: Some(prefix@), ..old(self)@ }),
            *final(self) == *final(r),
    {
        self.prefix = Some(prefix.to_owned());
        self
    }

    /// Takes keys as they are, with no prefix.
    pub fn without_prefix(&mut self) -> (r: &mut Self)
        ensures
            r@ == (ConfigView { prefix: None, ..old(self)@ }),
            *final(self) == *final(r),
    {
        self.prefix = None;
        self
    }

    /// Sets whether keys, struct fields and enum variants match case
    /// sensitively.
    pub fn case_sensitive(&mut self, case_sensitive: bool) -> (r: &mut Self)
        ensures
            r@ == (ConfigView { case_sensitive, ..old(self)@ }),
            *final(self) == *final(r),
    {
        self.case_sensitive = case_sensitive;
        self
    }

    /// Sets whether array elements are ordered by their keys rather than
    /// taken in the order they were read.
    pub fn ordered_arrays(&mut self, ordered_arrays: bool) -> (r: &mut Self)
        ensures
            r@ == (ConfigView { ordered_arrays, ..old(self)@ }),
            *final(self) == *final(r),
    {
        self.ordered_arrays = ordered_arrays;
        self
    }

    /// Whether matching is case sensitive.
    pub fn is_case_sensitive(&self) -> (r: bool)
        ensures
            r == self@.case_sensitive,
    {
        self.case_sensitive
    }

    /// Whether array elements are ordered by their keys.
    pub fn orders_arrays(&self) -> (r: bool)
        ensures
            r == self@.ordered_arrays,
    {
        self.ordered_arrays
    }

    /// The key under which a field or variant named `key` is looked up.
    fn coerce_key(&self, key: String, names: &[&str]) -> (r: String)
        ensures
            r@ == coerced_key(self@.case_sensitive, path_view(names@), key@),
    {
        if self.case_sensitive {
            return key;
        }
        let ghost ns = path_view(names@);
        proof {
            lemma_nocase_index(ns, key@);
        }
        let mut j: usize = 0;
        while j < names.len()
            invariant
                j <= names.len(),
                ns == path_view(names@),
                !self@.case_sensitive,
                forall|i: int| 0 <= i < j ==> !eq_ascii_nocase(ns[i], key@),
            decreases names.len() - j,
        {
            if eq_ignore_ascii_case(names[j], key.as_str()) {
                proof {
                    lemma_nocase_index(ns, key@);
                    assert(eq_ascii_nocase(ns[j as int], key@));
                }
                return names[j].to_owned();
            }
            j = j + 1;
        }
        proof {
            lemma_nocase_index(ns, key@);
            if nocase_index(ns, key@) < ns.len() {
                assert(eq_ascii_nocase(ns[nocase_index(ns, key@)], key@));
            }
        }
        key
    }

    /// Renames each key to the expected name that it matches up to ASCII
    /// case, where matching is case insensitive; values are kept.
    pub fn maybe_coerce_case<V>(&self, values: Vec<(String, V)>, corrected_cases: &[&str]) -> (r:
        Vec<(String, V)>)
        ensures
            r@.len() == values@.len(),
            forall|i: int|
                0 <= i < values@.len() ==> (#[trigger] r@[i]).1 == values@[i].1 && r@[i].0@
                    == coerced_key(self@.case_sensitive, path_view(corrected_cases@), values@[i].0@),
    {
        let mut r: Vec<(String, V)> = Vec::new();
        for pair in it: values
            invariant
                it.seq() == values@,
                r@.len() == it.index(),
                forall|i: int|
                    0 <= i < it.index() ==> (#[trigger] r@[i]).1 == values@[i].1 && r@[i].0@
                        == coerced_key(
                        self@.case_sensitive,
                        path_view(corrected_cases@),
                        values@[i].0@,
                    ),
        {
            let (key, value) = pair;
            let k = self.coerce_key(key, corrected_cases);
            r.push((k, value));
        }
        r
    }

    /// The key that reaches the tree builder, or `None` for a key without
    /// the configured prefix.
    pub fn normalize_key(&self, key: &str) -> (r: Option<String>)
        ensures
            r is Some <==> normalized_key(self@, key@) is Some,
            r matches Some(k) ==> normalized_key(self@, key@) == Some(k@),
    {
        let k = if self.case_sensitive {
            key.to_owned()
        } else {
            to_ascii_lowercase(key)
        };
        match &self.prefix {
            None => Some(k),
            Some(p) => {
                let pre = if self.case_sensitive {
                    p.clone()
                } else {
                    to_ascii_lowercase(p.as_str())
                };
                strip_prefix(k.as_str(), pre.as_str())
            },
        }
    }

    /// Builds the key tree from raw pairs: keys are normalized, pairs without
    /// the prefix are left out, and the rest go to [`Self::create_parser`].
    pub fn build_parser(&self, pairs: Vec<(String, String)>) -> (r: Result<
        Parser<'_>,
        EnvDeserializationError,
    >)
        ensures
            match build_tree(
                prepared_pairs(self@, raw_pairs_view(pairs@)),
                self@.separator,
            ) {
                Ok(t) => r matches Ok(p) && p.current@ == t && p.config == self,
                Err(e) => r matches Err(EnvDeserializationError::InvalidEnvNesting(v)) && views(
                    v@,
                ) == e,
            },
    {
        let ghost raw = raw_pairs_view(pairs@);
        let mut kept: Vec<(String, Value)> = Vec::new();
        proof {
            assert(raw.take(0) =~= Seq::empty());
            assert(pairs_view(kept@) =~= Seq::empty());
        }
        for pair in it: pairs
            invariant
                it.seq() == pairs@,
                raw == raw_pairs_view(pairs@),
                pairs_view(kept@) == prepared_pairs(self@, raw.take(it.index() as int)),
        {
            let ghost before = kept@;
            let (key, value) = pair;
            proof {
                assert(raw.take(it.index() + 1).drop_last() =~= raw.take(it.index() as int));
                assert(raw.take(it.index() + 1).last() == (key@, value@));
            }
            match self.normalize_key(key.as_str()) {
                Some(k) => {
                    let ghost entry = (k@, Tree::Leaf(value@));
                    kept.push((k, Value::Simple(value)));
                    assert(pairs_view(kept@) =~= pairs_view(before).push(entry));
                },
                None => {},
            }
        }
        proof {
            assert(raw.take(pairs@.len() as int) =~= raw);
        }
        self.create_parser(kept)
    }

    /// Builds the key tree from the pairs, splitting each key on the
    /// separator, and wraps it for decoding.
    pub fn create_parser(&self, iter: Vec<(String, Value)>) -> (r: Result<
        Parser<'_>,
        EnvDeserializationError,
    >)
        ensures
            match build_tree(pairs_view(iter@), self@.separator) {
                Ok(t) => r matches Ok(p) && p.current@ == t && p.config == self,
                Err(e) => r matches Err(EnvDeserializationError::InvalidEnvNesting(v)) && views(
                    v@,
                ) == e,
            },
    {
        let ghost all = pairs_view(iter@);
        let mut base = Value::Nested(Vec::new());
        proof {
            assert(crate::value::children_of(Seq::empty()) =~= Seq::empty());
            assert(base@ == Tree::Branch(Seq::empty()));
            assert(all.take(0) =~= Seq::empty());
        }
        for pair in it: iter
            invariant
                it.seq() == iter@,
                all == pairs_view(iter@),
                build_tree(all.take(it.index() as int), self@.separator) == Ok::<
                    Tree,
                    Seq<Seq<char>>,
                >(base@),
        {
            let ghost done = all.take(it.index() as int);
            let (key, value) = pair;
            let ghost entry = (key@, value@);
            proof {
                assert(all.take(it.index() + 1).drop_last() =~= done);
                assert(all.take(it.index() + 1).last() == entry);
            }
            let segments = split_key(key.as_str(), self.separator.as_str());
            proof {
                crate::text::lemma_split_nonempty(key@, self@.separator);
            }
            let path = as_strs(&segments);
            match base.insert_at(path.as_slice(), value) {
                Ok(()) => {},
                Err(e) => {
                    proof {
                        lemma_build_tree_err(all, it.index() + 1, self@.separator);
                    }
                    return Err(e);
                },
            }
        }
        proof {
            assert(all.take(iter@.len() as int) =~= all);
        }
        Ok(Parser { config: self, current: base })
    }
}

} // verus!
