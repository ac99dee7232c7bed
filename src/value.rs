//! The key tree: a value is either a single string or an ordered list of
//! named children, built one key path at a time.
use vstd::prelude::*;

use crate::error::EnvDeserializationError;
use crate::text::views;

verus! {

/// A node of the key tree.
#[derive(Debug, PartialEq)]
pub enum Value {
    /// A single value, as it was given.
    Simple(String),
    /// Named children in the order in which their keys were first seen.
    Nested(Vec<(String, Value)>),
}

/// The mathematical form of a node: keys and values as character sequences.
pub ghost enum Tree {
    Leaf(Seq<char>),
    Branch(Seq<(Seq<char>, Tree)>),
}

pub open spec fn tree_of(v: Value) -> Tree
    decreases v, 1nat,
{
    match v {
        Value::Simple(s) => Tree::Leaf(s@),
        Value::Nested(cs) => Tree::Branch(children_of(cs@)),
    }
}

pub open spec fn children_of(cs: Seq<(String, Value)>) -> Seq<(Seq<char>, Tree)>
    decreases cs, 0nat,
{
    if cs.len() == 0 {
        Seq::empty()
    } else {
        children_of(cs.drop_last()).push((cs.last().0@, tree_of(cs.last().1)))
    }
}

impl View for Value {
    type V = Tree;

    open spec fn view(&self) -> Tree {
        tree_of(*self)
    }
}

pub proof fn lemma_children_of(cs: Seq<(String, Value)>)
    ensures
        children_of(cs).len() == cs.len(),
        forall|i: int|
            0 <= i < cs.len() ==> #[trigger] children_of(cs)[i] == (cs[i].0@, tree_of(cs[i].1)),
    decreases cs.len(),
{
    if cs.len() > 0 {
        lemma_children_of(cs.drop_last());
    }
}

/// The views of the segments of a key path.
pub open spec fn path_view(p: Seq<&str>) -> Seq<Seq<char>> {
    p.map_values(|s: &str| s@)
}

/// The position of the first child named `k`, or the number of children
/// where no child has that name.
pub open spec fn key_index(cs: Seq<(Seq<char>, Tree)>, k: Seq<char>) -> int
    decreases cs.len(),
{
    if cs.len() == 0 {
        0
    } else if cs[0].0 == k {
        0
    } else {
        1 + key_index(cs.drop_first(), k)
    }
}

pub proof fn lemma_key_index(cs: Seq<(Seq<char>, Tree)>, k: Seq<char>)
    ensures
        0 <= key_index(cs, k) <= cs.len(),
        key_index(cs, k) < cs.len() ==> cs[key_index(cs, k)].0 == k,
        forall|j: int| 0 <= j < key_index(cs, k) ==> cs[j].0 != k,
    decreases cs.len(),
{
    if cs.len() > 0 && cs[0].0 != k {
        lemma_key_index(cs.drop_first(), k);
        assert forall|j: int| 0 <= j < key_index(cs, k) implies cs[j].0 != k by {
            if j > 0 {
                assert(cs[j] == cs.drop_first()[j - 1]);
            }
        }
    }
}

/// A chain of single-child branches along `path`, ending in `leaf`.
pub open spec fn chain(path: Seq<Seq<char>>, leaf: Tree) -> Tree
    decreases path.len(),
{
    if path.len() == 0 {
        leaf
    } else {
        Tree::Branch(seq![(path[0], chain(path.drop_first(), leaf))])
    }
}

/// The tree after `leaf` is put at `path`, or the rest of the path from the
/// segment where a single value and a group would share a name.
///
/// The last segment is appended as a new child, unless a child of that name
/// exists and one of the two is a group: only single values may share a name.
/// Every segment before the last descends into the first child of that name,
/// which is created where none exists; where that child is a single value,
/// the insertion fails.
pub open spec fn tree_insert(t: Tree, path: Seq<Seq<char>>, leaf: Tree) -> Result<
    Tree,
    Seq<Seq<char>>,
>
    decreases path.len(),
{
    match t {
        Tree::Leaf(_) => Err(path),
        Tree::Branch(cs) => {
            if path.len() <= 1 {
                let i = key_index(cs, path[0]);
                if i < cs.len() && (cs[i].1 is Branch || leaf is Branch) {
                    Err(path)
                } else {
                    Ok(Tree::Branch(cs.push((path[0], leaf))))
                }
            } else {
                let i = key_index(cs, path[0]);
                if i == cs.len() {
                    Ok(Tree::Branch(cs.push((path[0], chain(path.drop_first(), leaf)))))
                } else {
                    match cs[i].1 {
                        Tree::Leaf(_) => Err(path),
                        Tree::Branch(_) => match tree_insert(cs[i].1, path.drop_first(), leaf) {
                            Ok(n) => Ok(Tree::Branch(cs.update(i, (path[0], n)))),
                            Err(e) => Err(e),
                        },
                    }
                }
            }
        },
    }
}

/// The error that names `path[from..]` as clashing with a single value.
fn nesting_error(path: &[&str], from: usize) -> (r: EnvDeserializationError)
    requires
        from <= path@.len(),
    ensures
        r matches EnvDeserializationError::InvalidEnvNesting(v) && views(v@) == path_view(
            path@,
        ).skip(from as int),
{
    let mut v: Vec<String> = Vec::new();
    let mut i: usize = from;
    while i < path.len()
        invariant
            from <= i <= path@.len(),
            views(v@) == path_view(path@).subrange(from as int, i as int),
        decreases path@.len() - i,
    {
        let ghost prev = v@;
        v.push(path[i].to_owned());
        assert(views(v@) =~= views(prev).push(path@[i as int]@));
        i = i + 1;
        assert(views(v@) =~= path_view(path@).subrange(from as int, i as int));
    }
    assert(path_view(path@).subrange(from as int, i as int) =~= path_view(path@).skip(
        from as int,
    ));
    EnvDeserializationError::InvalidEnvNesting(v)
}

/// The position of the first child named `key`, or the number of children.
fn find_key(values: &Vec<(String, Value)>, key: &String) -> (i: usize)
    ensures
        i <= values.len(),
        i == key_index(children_of(values@), key@),
{
    let ghost cs = children_of(values@);
    proof {
        lemma_children_of(values@);
        lemma_key_index(cs, key@);
    }
    let mut i: usize = 0;
    while i < values.len()
        invariant
            i <= values.len(),
            cs == children_of(values@),
            cs.len() == values.len(),
            forall|j: int| 0 <= j < i ==> cs[j].0 != key@,
            forall|j: int|
                0 <= j < values.len() ==> #[trigger] cs[j] == (values@[j].0@, tree_of(values@[j].1)),
        decreases values.len() - i,
    {
        if values[i].0 == *key {
            proof {
                lemma_key_index(cs, key@);
                assert(cs[i as int].0 == key@);
            }
            return i;
        }
        i = i + 1;
    }
    proof {
        lemma_key_index(cs, key@);
        if key_index(cs, key@) < cs.len() {
            assert(cs[key_index(cs, key@)].0 == key@);
        }
    }
    i
}

/// Single-child groups along `path[from..]`, ending in `value`.
fn chain_of(path: &[&str], from: usize, value: Value) -> (r: Value)
    requires
        from <= path@.len(),
    ensures
        r@ == chain(path_view(path@).skip(from as int), value@),
    decreases path@.len() - from,
{
    if from == path.len() {
        value
    } else {
        let below = chain_of(path, from + 1, value);
        let entry = (path[from].to_owned(), below);
        let children = vec![entry];
        proof {
            let p = path_view(path@).skip(from as int);
            assert(p.drop_first() =~= path_view(path@).skip(from + 1));
            lemma_children_of(children@);
            assert(children_of(children@) =~= seq![(p[0], below@)]);
        }
        Value::Nested(children)
    }
}

impl Value {
    /// Puts `value` at `path`, creating the groups on the way. Fails where a
    /// segment before the last names a single value, or where the last segment
    /// names a child and one of the two is a group.
    pub fn insert_at(&mut self, path: &[&str], value: Self) -> (r: Result<
        (),
        EnvDeserializationError,
    >)
        requires
            path@.len() >= 1,
        ensures
            match tree_insert(old(self)@, path_view(path@), value@) {
                Ok(t) => r is Ok && final(self)@ == t,
                Err(p) => final(self)@ == old(self)@ && (r matches Err(
                    EnvDeserializationError::InvalidEnvNesting(v),
                ) && views(v@) == p),
            },
    {
        proof {
            assert(path_view(path@).skip(0) =~= path_view(path@));
        }
        self.insert_from(path, 0, value)
    }

    fn insert_from(&mut self, path: &[&str], from: usize, value: Self) -> (r: Result<
        (),
        EnvDeserializationError,
    >)
        requires
            from < path@.len(),
        ensures
            match tree_insert(old(self)@, path_view(path@).skip(from as int), value@) {
                Ok(t) => r is Ok && final(self)@ == t,
                Err(p) => final(self)@ == old(self)@ && (r matches Err(
                    EnvDeserializationError::InvalidEnvNesting(v),
                ) && views(v@) == p),
            },
        decreases path@.len() - from,
    {
        let ghost p = path_view(path@).skip(from as int);
        match self {
            Value::Simple(_) => Err(nesting_error(path, from)),
            Value::Nested(values) => {
                let ghost old_values = values@;
                proof {
                    lemma_children_of(old_values);
                }
                let key = path[from].to_owned();
                if from + 1 == path.len() {
                    let i = find_key(values, &key);
                    if i < values.len() {
                        let clash = match (&values[i].1, &value) {
                            (Value::Simple(_), Value::Simple(_)) => false,
                            _ => true,
                        };
                        if clash {
                            proof {
                                lemma_key_index(children_of(old_values), p[0]);
                            }
                            return Err(nesting_error(path, from));
                        }
                    }
                    values.push((key, value));
                    proof {
                        lemma_children_of(values@);
                        assert(children_of(values@) =~= children_of(old_values).push(
                            (p[0], value@),
                        ));
                    }
                    Ok(())
                } else {
                    let i = find_key(values, &key);
                    proof {
                        assert(p.drop_first() =~= path_view(path@).skip(from + 1));
                    }
                    if i == values.len() {
                        let below = chain_of(path, from + 1, value);
                        values.push((key, below));
                        proof {
                            lemma_children_of(values@);
                            assert(children_of(values@) =~= children_of(old_values).push(
                                (p[0], chain(p.drop_first(), value@)),
                            ));
                        }
                        Ok(())
                    } else {
                        let is_single = match &values[i].1 {
                            Value::Simple(_) => true,
                            Value::Nested(_) => false,
                        };
                        if is_single {
                            Err(nesting_error(path, from))
                        } else {
                            let r = values[i].1.insert_from(path, from + 1, value);
                            proof {
                                lemma_children_of(values@);
                                lemma_key_index(children_of(old_values), p[0]);
                                assert(values@.len() == old_values.len());
                                assert(values@[i as int].0 == old_values[i as int].0);
                                assert(old_values[i as int].0@ == p[0]);
                                assert(forall|j: int|
                                    0 <= j < values@.len() && j != i ==> values@[j]
                                        == old_values[j]);
                                if r is Ok {
                                    assert(children_of(values@) =~= children_of(old_values).update(
                                        i as int,
                                        (p[0], values@[i as int].1@),
                                    ));
                                } else {
                                    assert(children_of(values@) =~= children_of(old_values));
                                }
                            }
                            r
                        }
                    }
                }
            },
        }
    }
}

} // verus!
