//! What holds of JSON documents and of the paths that lead into them.

use crate::json::{member, JsonModel, NumberModel};
use crate::path::{children, element_from_json, has_wildcard, path_covers, path_of_json};
use crate::path::{select_from, select_step, selected, PathElementModel, PathError, PathModel};
use crate::seqs::{lemma_filter_step, lemma_flat_map_empty, lemma_flat_map_step, lemma_take_all};
use crate::text::Text;
use vstd::prelude::*;

verus! {

/// The member of a name is the first of that name, and there is none only where no member has the
/// name.
pub proof fn lemma_the_first_member_counts(entries: Seq<(Text, JsonModel)>, key: Text)
    ensures
        match member(entries, key) {
            Some(value) => exists|i: int|
                0 <= i < entries.len() && #[trigger] entries[i] == (key, value) && forall|j: int|
                    0 <= j < i ==> (#[trigger] entries[j]).0 != key,
            None => forall|i: int| 0 <= i < entries.len() ==> (#[trigger] entries[i]).0 != key,
        },
    decreases entries.len(),
{
    if entries.len() > 0 {
        let rest = entries.drop_last();
        let n = entries.len() - 1;
        lemma_the_first_member_counts(rest, key);
        match member(rest, key) {
            Some(value) => {
                let i = choose|i: int|
                    0 <= i < rest.len() && #[trigger] rest[i] == (key, value) && forall|j: int|
                        0 <= j < i ==> (#[trigger] rest[j]).0 != key;
                assert(entries[i] == (key, value));
                assert forall|j: int| 0 <= j < i implies (#[trigger] entries[j]).0 != key by {
                    assert(entries[j] == rest[j]);
                }
            },
            None => {
                assert forall|j: int| 0 <= j < n implies (#[trigger] entries[j]).0 != key by {
                    assert(entries[j] == rest[j]);
                }
                if entries[n].0 == key {
                    assert(entries[n] == (key, entries[n].1));
                }
            },
        }
    }
}

/// Only objects have members.
pub proof fn lemma_only_objects_have_members(document: JsonModel, key: Text)
    ensures
        match document {
            JsonModel::Object(entries) => document.get(key) == member(entries, key),
            _ => document.get(key) is None,
        },
{
}

/// A number stands for a 64-bit integer exactly where it is one.
pub proof fn lemma_numbers_as_integers(number: NumberModel, value: i64)
    ensures
        number.as_i64() == Some(value) <==> match number {
            NumberModel::PosInt(own) => own as int == value as int,
            NumberModel::NegInt(own) => own as int == value as int,
            NumberModel::Float(_) => false,
        },
{
}

/// The empty path leads to the whole document.
pub proof fn lemma_the_empty_path_selects_the_document(document: JsonModel)
    ensures
        selected(document, Seq::empty()) == Ok::<Seq<JsonModel>, PathError>(seq![document]),
{
}

/// Whether a component asks for a kind of value that this is not.
pub open spec fn asks_for_other(element: PathElementModel, node: JsonModel) -> bool {
    match element {
        PathElementModel::String(_) => !(node is Object),
        PathElementModel::Index(_) => !(node is Array),
        PathElementModel::Wildcard => !(node is Array),
    }
}

/// Where a path leads with one more component: nowhere where it led nowhere before, or where it
/// came to a value of another kind than the component asks for. Else a name leads to the members
/// of that name, an index to the elements at that index and a wildcard to all elements, of every
/// value that the path led to and in the same order; and where there are none of these, the path
/// leads nowhere.
pub proof fn lemma_paths_lead_step_by_step(
    document: JsonModel,
    path: PathModel,
    element: PathElementModel,
)
    ensures
        ({
            let longer = selected(document, path.push(element));
            match selected(document, path) {
                Err(error) => longer == Err::<Seq<JsonModel>, PathError>(error),
                Ok(nodes) => if exists|i: int|
                    0 <= i < nodes.len() && asks_for_other(element, #[trigger] nodes[i]) {
                    longer == Err::<Seq<JsonModel>, PathError>(PathError::UnexpectedType)
                } else {
                    let next = match element {
                        PathElementModel::String(name) => nodes.filter(
                            |node: JsonModel| member(node->Object_0, name) is Some,
                        ).map_values(|node: JsonModel| member(node->Object_0, name)->0),
                        PathElementModel::Index(index) => nodes.filter(
                            |node: JsonModel| index < node->Array_0.len(),
                        ).map_values(|node: JsonModel| node->Array_0[index as int]),
                        PathElementModel::Wildcard => nodes.flat_map(
                            |node: JsonModel| node->Array_0,
                        ),
                    };
                    longer == if next.len() > 0 {
                        Ok::<Seq<JsonModel>, PathError>(next)
                    } else {
                        Err::<Seq<JsonModel>, PathError>(PathError::NoMatch)
                    }
                },
            }
        }),
{
    lemma_select_push(seq![document], path, element);
    if let Ok(nodes) = selected(document, path) {
        if !(exists|i: int| 0 <= i < nodes.len() && asks_for_other(element, #[trigger] nodes[i])) {
            match element {
                PathElementModel::String(name) => {
                    lemma_named_children(nodes, name);
                },
                PathElementModel::Index(index) => {
                    lemma_indexed_children(nodes, index);
                },
                PathElementModel::Wildcard => {
                    lemma_all_children(nodes);
                },
            }
        }
    }
}

/// A longer path goes on from where the shorter one leads.
proof fn lemma_select_push(nodes: Seq<JsonModel>, path: PathModel, element: PathElementModel)
    ensures
        select_from(nodes, path.push(element)) == match select_from(nodes, path) {
            Ok(found) => select_step(found, element),
            Err(error) => Err(error),
        },
    decreases path.len(),
{
    reveal_with_fuel(select_from, 2);
    let longer = path.push(element);
    if path.len() == 0 {
        assert(longer[0] == element);
        assert(longer.drop_first() =~= Seq::empty());
    } else {
        assert(longer[0] == path[0]);
        assert(longer.drop_first() =~= path.drop_first().push(element));
        if let Ok(next) = select_step(nodes, path[0]) {
            lemma_select_push(next, path.drop_first(), element);
        }
    }
}

proof fn lemma_named_children(nodes: Seq<JsonModel>, name: Text)
    requires
        forall|i: int| 0 <= i < nodes.len() ==> (#[trigger] nodes[i]) is Object,
    ensures
        nodes.flat_map(|node: JsonModel| children(PathElementModel::String(name), node))
            == nodes.filter(
            |node: JsonModel| member(node->Object_0, name) is Some,
        ).map_values(|node: JsonModel| member(node->Object_0, name)->0),
    decreases nodes.len(),
{
    let f = |node: JsonModel| children(PathElementModel::String(name), node);
    let keep = |node: JsonModel| member(node->Object_0, name) is Some;
    let image = |node: JsonModel| member(node->Object_0, name)->0;
    if nodes.len() == 0 {
        lemma_flat_map_empty(nodes, f);
        reveal(Seq::filter);
        assert(nodes.filter(keep).map_values(image) =~= Seq::<JsonModel>::empty());
    } else {
        let n = nodes.len() - 1;
        let rest = nodes.take(n);
        lemma_named_children(rest, name);
        lemma_flat_map_step(nodes, f, n);
        lemma_filter_step(nodes, keep, n);
        lemma_take_all(nodes);
        let node = nodes[n];
        assert(node is Object);
        if keep(node) {
            assert(rest.filter(keep).push(node).map_values(image) =~= rest.filter(
                keep,
            ).map_values(image) + seq![image(node)]);
            assert(f(node) == seq![image(node)]);
        } else {
            assert(f(node) =~= Seq::<JsonModel>::empty());
            assert(rest.flat_map(f) + f(node) =~= rest.flat_map(f));
        }
    }
}

proof fn lemma_indexed_children(nodes: Seq<JsonModel>, index: u64)
    requires
        forall|i: int| 0 <= i < nodes.len() ==> (#[trigger] nodes[i]) is Array,
    ensures
        nodes.flat_map(|node: JsonModel| children(PathElementModel::Index(index), node))
            == nodes.filter(|node: JsonModel| index < node->Array_0.len()).map_values(
            |node: JsonModel| node->Array_0[index as int],
        ),
    decreases nodes.len(),
{
    let f = |node: JsonModel| children(PathElementModel::Index(index), node);
    let keep = |node: JsonModel| index < node->Array_0.len();
    let image = |node: JsonModel| node->Array_0[index as int];
    if nodes.len() == 0 {
        lemma_flat_map_empty(nodes, f);
        reveal(Seq::filter);
        assert(nodes.filter(keep).map_values(image) =~= Seq::<JsonModel>::empty());
    } else {
        let n = nodes.len() - 1;
        let rest = nodes.take(n);
        lemma_indexed_children(rest, index);
        lemma_flat_map_step(nodes, f, n);
        lemma_filter_step(nodes, keep, n);
        lemma_take_all(nodes);
        let node = nodes[n];
        assert(node is Array);
        if keep(node) {
            assert(rest.filter(keep).push(node).map_values(image) =~= rest.filter(
                keep,
            ).map_values(image) + seq![image(node)]);
            assert(f(node) == seq![image(node)]);
        } else {
            assert(f(node) =~= Seq::<JsonModel>::empty());
            assert(rest.flat_map(f) + f(node) =~= rest.flat_map(f));
        }
    }
}

proof fn lemma_all_children(nodes: Seq<JsonModel>)
    requires
        forall|i: int| 0 <= i < nodes.len() ==> (#[trigger] nodes[i]) is Array,
    ensures
        nodes.flat_map(|node: JsonModel| children(PathElementModel::Wildcard, node))
            == nodes.flat_map(|node: JsonModel| node->Array_0),
    decreases nodes.len(),
{
    let f = |node: JsonModel| children(PathElementModel::Wildcard, node);
    let g = |node: JsonModel| node->Array_0;
    if nodes.len() == 0 {
        lemma_flat_map_empty(nodes, f);
        lemma_flat_map_empty(nodes, g);
    } else {
        let n = nodes.len() - 1;
        let rest = nodes.take(n);
        lemma_all_children(rest);
        lemma_flat_map_step(nodes, f, n);
        lemma_flat_map_step(nodes, g, n);
        lemma_take_all(nodes);
        assert(nodes[n] is Array);
        assert(f(nodes[n]) == g(nodes[n]));
    }
}

/// A pattern covers a path exactly where both are equally long and the path has, at every place,
/// the component of the pattern, or any index where the pattern has a wildcard.
pub proof fn lemma_patterns_cover_paths(pattern: PathModel, path: PathModel)
    ensures
        path_covers(pattern, path) <==> pattern.len() == path.len() && forall|i: int|
            0 <= i < path.len() ==> match pattern[i] {
                PathElementModel::String(name) => #[trigger] path[i] == PathElementModel::String(
                    name,
                ),
                PathElementModel::Index(index) => path[i] == PathElementModel::Index(index),
                PathElementModel::Wildcard => !(path[i] is String),
            },
{
}

/// A path is one with a wildcard exactly where one of its components is.
pub proof fn lemma_wildcards(path: PathModel)
    ensures
        has_wildcard(path) <==> exists|i: int|
            0 <= i < path.len() && (#[trigger] path[i]) is Wildcard,
{
    if exists|i: int| 0 <= i < path.len() && (#[trigger] path[i]) is Wildcard {
        let i = choose|i: int| 0 <= i < path.len() && (#[trigger] path[i]) is Wildcard;
        assert(path[i] == PathElementModel::Wildcard);
    }
}

/// Whether a list of JSON values writes down a path: text for names, natural numbers for indices
/// and null for wildcards.
pub open spec fn writes(items: Seq<JsonModel>, path: PathModel) -> bool {
    &&& items.len() == path.len()
    &&& forall|i: int|
        0 <= i < path.len() ==> match #[trigger] path[i] {
            PathElementModel::String(name) => items[i] == JsonModel::String(name),
            PathElementModel::Index(index) => items[i] == JsonModel::Number(
                NumberModel::PosInt(index),
            ),
            PathElementModel::Wildcard => items[i] == JsonModel::Null,
        }
}

/// A JSON value denotes a path exactly where it is an array that writes the path down.
pub proof fn lemma_paths_are_written_as_arrays(value: JsonModel, path: PathModel)
    ensures
        path_of_json(value) == Some(path) <==> (value matches JsonModel::Array(items) && writes(
            items,
            path,
        )),
{
    if let JsonModel::Array(items) = value {
        if path_of_json(value) == Some(path) {
            assert forall|i: int| 0 <= i < path.len() implies match #[trigger] path[i] {
                PathElementModel::String(name) => items[i] == JsonModel::String(name),
                PathElementModel::Index(index) => items[i] == JsonModel::Number(
                    NumberModel::PosInt(index),
                ),
                PathElementModel::Wildcard => items[i] == JsonModel::Null,
            } by {
                assert(element_from_json(items[i]) is Some);
            }
        }
        if writes(items, path) {
            assert forall|i: int| 0 <= i < items.len() implies element_from_json(
                #[trigger] items[i],
            ) == Some(path[i]) by {
                let element = path[i];
            }
            assert(items.map_values(|item: JsonModel| element_from_json(item)->0) =~= path);
        }
    }
}

} // verus!
