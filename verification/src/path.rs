//! Claims path pointers and the selection of JSON nodes by them.

use crate::json::{lemma_entry_models, lemma_json_models, JsonModel, JsonNumber, JsonValue};
use crate::json::{NumberModel};
use crate::seqs::{lemma_flat_map_empty, lemma_flat_map_step, lemma_take_all};
use crate::text::{same_text, Text};
use vstd::prelude::*;

verus! {

/// One component of a claims path pointer.
#[derive(Debug)]
pub enum PathElement {
    /// Selects the member of that name.
    String(String),
    /// Selects the array element at that index.
    Index(u64),
    /// Selects every element of an array.
    Wildcard,
}

/// A claims path pointer: the components that lead from the root to the claim.
pub type ClaimsPathPointer = Vec<PathElement>;

/// Model of a [`PathElement`].
pub enum PathElementModel {
    String(Text),
    Index(u64),
    Wildcard,
}

/// Model of a claims path pointer.
pub type PathModel = Seq<PathElementModel>;

impl DeepView for PathElement {
    type V = PathElementModel;

    open spec fn deep_view(&self) -> PathElementModel {
        match *self {
            PathElement::String(name) => PathElementModel::String(name@),
            PathElement::Index(index) => PathElementModel::Index(index),
            PathElement::Wildcard => PathElementModel::Wildcard,
        }
    }
}

impl Clone for PathElement {
    fn clone(&self) -> (copy: PathElement)
        ensures
            copy.deep_view() == self.deep_view(),
    {
        match self {
            PathElement::String(name) => PathElement::String(name.clone()),
            PathElement::Index(index) => PathElement::Index(*index),
            PathElement::Wildcard => PathElement::Wildcard,
        }
    }
}

/// A copy of a path.
pub fn clone_path(path: &ClaimsPathPointer) -> (copy: ClaimsPathPointer)
    ensures
        copy.deep_view() == path.deep_view(),
{
    let copy = path.clone();
    assert(copy.deep_view() =~= path.deep_view());
    copy
}

/// Whether two components are the same.
pub fn same_element(left: &PathElement, right: &PathElement) -> (same: bool)
    ensures
        same == (left.deep_view() == right.deep_view()),
{
    match (left, right) {
        (PathElement::String(a), PathElement::String(b)) => same_text(a.as_str(), b.as_str()),
        (PathElement::Index(a), PathElement::Index(b)) => *a == *b,
        (PathElement::Wildcard, PathElement::Wildcard) => true,
        _ => false,
    }
}

/// Whether two paths have the same components.
pub fn same_path(left: &ClaimsPathPointer, right: &ClaimsPathPointer) -> (same: bool)
    ensures
        same == (left.deep_view() == right.deep_view()),
{
    if left.len() != right.len() {
        assert(left.deep_view().len() != right.deep_view().len());
        return false;
    }
    let mut i: usize = 0;
    while i < left.len()
        invariant
            i <= left.len() == right.len(),
            forall|j: int| 0 <= j < i ==> left.deep_view()[j] == right.deep_view()[j],
        decreases left.len() - i,
    {
        if !same_element(&left[i], &right[i]) {
            assert(left.deep_view()[i as int] != right.deep_view()[i as int]);
            return false;
        }
        i = i + 1;
    }
    assert(left.deep_view() =~= right.deep_view());
    true
}

/// A component as plain values: its index or its name, and neither for a wildcard.
pub open spec fn element_key(element: PathElementModel) -> (Option<u64>, Option<Text>) {
    match element {
        PathElementModel::String(name) => (None, Some(name)),
        PathElementModel::Index(index) => (Some(index), None),
        PathElementModel::Wildcard => (None, None),
    }
}

/// A path as plain values.
pub open spec fn path_key(path: PathModel) -> Seq<(Option<u64>, Option<Text>)> {
    path.map_values(|element: PathElementModel| element_key(element))
}

/// Different paths have different keys.
pub proof fn lemma_path_key(left: PathModel, right: PathModel)
    ensures
        path_key(left) == path_key(right) <==> left == right,
{
    if path_key(left) == path_key(right) {
        assert(left.len() == path_key(left).len());
        assert(right.len() == path_key(right).len());
        assert forall|i: int| 0 <= i < left.len() implies left[i] == right[i] by {
            assert(path_key(left)[i] == element_key(left[i]));
            assert(path_key(right)[i] == element_key(right[i]));
        }
        assert(left =~= right);
    }
}

/// A path as plain values.
pub fn key_of_path(path: &ClaimsPathPointer) -> (key: Vec<(Option<u64>, Option<String>)>)
    ensures
        key.deep_view() == path_key(path.deep_view()),
{
    let mut key: Vec<(Option<u64>, Option<String>)> = Vec::new();
    let mut i: usize = 0;
    while i < path.len()
        invariant
            i <= path.len(),
            key.len() == i,
            forall|k: int|
                0 <= k < i ==> (#[trigger] key@[k]).deep_view() == element_key(
                    path@[k].deep_view(),
                ),
        decreases path.len() - i,
    {
        key.push(
            match &path[i] {
                PathElement::String(name) => (None, Some(name.clone())),
                PathElement::Index(index) => (Some(*index), None),
                PathElement::Wildcard => (None, None),
            },
        );
        i = i + 1;
    }
    assert(key.deep_view() =~= path_key(path.deep_view()));
    key
}

/// Whether a component of a pattern covers a component of a path: a wildcard covers every
/// array position, and every other component covers itself.
pub open spec fn element_matches(pattern: PathElementModel, element: PathElementModel) -> bool {
    pattern == element || (pattern is Wildcard && element is Index)
}

/// Whether a pattern covers a path, component by component.
pub open spec fn path_covers(pattern: PathModel, path: PathModel) -> bool {
    &&& pattern.len() == path.len()
    &&& forall|i: int| 0 <= i < path.len() ==> element_matches(pattern[i], #[trigger] path[i])
}

/// Whether `pattern` covers `path`.
pub fn path_matches(pattern: &ClaimsPathPointer, path: &ClaimsPathPointer) -> (matches: bool)
    ensures
        matches == path_covers(pattern.deep_view(), path.deep_view()),
{
    if pattern.len() != path.len() {
        return false;
    }
    let mut i: usize = 0;
    while i < path.len()
        invariant
            i <= path.len() == pattern.len(),
            forall|j: int|
                0 <= j < i ==> element_matches(
                    pattern.deep_view()[j],
                    #[trigger] path.deep_view()[j],
                ),
        decreases path.len() - i,
    {
        let covered = match (&pattern[i], &path[i]) {
            (PathElement::Wildcard, PathElement::Index(_)) => true,
            (left, right) => same_element(left, right),
        };
        assert(covered == element_matches(
            pattern.deep_view()[i as int],
            path.deep_view()[i as int],
        ));
        if !covered {
            return false;
        }
        i = i + 1;
    }
    true
}

/// Whether a path holds a wildcard.
pub open spec fn has_wildcard(path: PathModel) -> bool {
    path.contains(PathElementModel::Wildcard)
}

/// Whether `path` holds a wildcard.
pub fn path_has_wildcard(path: &ClaimsPathPointer) -> (found: bool)
    ensures
        found == has_wildcard(path.deep_view()),
{
    let mut i: usize = 0;
    while i < path.len()
        invariant
            i <= path.len(),
            forall|j: int| 0 <= j < i ==> path.deep_view()[j] != PathElementModel::Wildcard,
        decreases path.len() - i,
    {
        if let PathElement::Wildcard = &path[i] {
            assert(path.deep_view()[i as int] == PathElementModel::Wildcard);
            return true;
        }
        i = i + 1;
    }
    false
}

/// Why a path selects nothing.
#[derive(Debug, Clone, Copy, PartialEq, Eq, Structural)]
pub enum PathError {
    /// A component met a value of the wrong type.
    UnexpectedType,
    /// No value is left after a component.
    NoMatch,
}

/// Whether a component can be applied to a value.
pub open spec fn applies(element: PathElementModel, node: JsonModel) -> bool {
    match element {
        PathElementModel::String(_) => node is Object,
        PathElementModel::Index(_) | PathElementModel::Wildcard => node is Array,
    }
}

/// What a component selects of one value.
pub open spec fn children(element: PathElementModel, node: JsonModel) -> Seq<JsonModel> {
    match element {
        PathElementModel::String(name) => match node.get(name) {
            Some(value) => seq![value],
            None => Seq::empty(),
        },
        PathElementModel::Index(index) => match node {
            JsonModel::Array(items) => if index < items.len() {
                seq![items[index as int]]
            } else {
                Seq::empty()
            },
            _ => Seq::empty(),
        },
        PathElementModel::Wildcard => match node {
            JsonModel::Array(items) => items,
            _ => Seq::empty(),
        },
    }
}

/// One step of node selection: every selected value must have the type that the component
/// asks for, and at least one value must be left.
pub open spec fn select_step(nodes: Seq<JsonModel>, element: PathElementModel) -> Result<
    Seq<JsonModel>,
    PathError,
> {
    let next = nodes.flat_map(|node: JsonModel| children(element, node));
    if exists|i: int| 0 <= i < nodes.len() && !applies(element, #[trigger] nodes[i]) {
        Err(PathError::UnexpectedType)
    } else if next.len() == 0 {
        Err(PathError::NoMatch)
    } else {
        Ok(next)
    }
}

/// The values that a path leads to, starting from `nodes`.
pub open spec fn select_from(nodes: Seq<JsonModel>, path: PathModel) -> Result<
    Seq<JsonModel>,
    PathError,
>
    decreases path.len(),
{
    if path.len() == 0 {
        Ok(nodes)
    } else {
        match select_step(nodes, path[0]) {
            Ok(next) => select_from(next, path.drop_first()),
            Err(error) => Err(error),
        }
    }
}

/// The values that a path selects in a document.
pub open spec fn selected(root: JsonModel, path: PathModel) -> Result<Seq<JsonModel>, PathError> {
    select_from(seq![root], path)
}

/// A selection that succeeds is never empty.
pub proof fn lemma_selected_not_empty(nodes: Seq<JsonModel>, path: PathModel)
    requires
        nodes.len() > 0,
    ensures
        select_from(nodes, path) matches Ok(found) ==> found.len() > 0,
    decreases path.len(),
{
    if path.len() > 0 {
        if let Ok(next) = select_step(nodes, path[0]) {
            lemma_selected_not_empty(next, path.drop_first());
        }
    }
}

/// Applies one component to one value and appends what it selects to `out`.
/// Says whether the component could be applied.
fn select_children<'a>(
    node: &'a JsonValue,
    element: &PathElement,
    out: &mut Vec<&'a JsonValue>,
) -> (applied: bool)
    ensures
        applied == applies(element.deep_view(), node.deep_view()),
        applied ==> final(out).deep_view() == old(out).deep_view() + children(
            element.deep_view(),
            node.deep_view(),
        ),
{
    let ghost before = out.deep_view();
    match element {
        PathElement::String(name) => match node {
            JsonValue::Object(entries) => {
                proof {
                    lemma_entry_models(entries@);
                }
                if let Some(value) = crate::json::find_member(entries, name.as_str()) {
                    out.push(value);
                    assert(out.deep_view() =~= before + seq![value.deep_view()]);
                } else {
                    assert(out.deep_view() =~= before + Seq::<JsonModel>::empty());
                }
                true
            },
            _ => false,
        },
        PathElement::Index(index) => match node {
            JsonValue::Array(items) => {
                proof {
                    lemma_json_models(items@);
                }
                if *index < items.len() as u64 {
                    let at: usize = *index as usize;
                    out.push(&items[at]);
                    assert(out.deep_view() =~= before + seq![items@[at as int].deep_view()]);
                } else {
                    assert(out.deep_view() =~= before + Seq::<JsonModel>::empty());
                }
                true
            },
            _ => false,
        },
        PathElement::Wildcard => match node {
            JsonValue::Array(items) => {
                proof {
                    lemma_json_models(items@);
                }
                let ghost all = items.deep_view();
                let mut i: usize = 0;
                assert(out.deep_view() =~= before + all.take(0));
                while i < items.len()
                    invariant
                        i <= items.len(),
                        all == items.deep_view(),
                        out.deep_view() == before + all.take(i as int),
                    decreases items.len() - i,
                {
                    let ghost so_far = out.deep_view();
                    out.push(&items[i]);
                    assert(out.deep_view() =~= so_far.push(all[i as int]));
                    assert(all.take(i + 1) =~= all.take(i as int).push(all[i as int]));
                    assert(so_far.push(all[i as int]) =~= before + all.take(i + 1));
                    i = i + 1;
                }
                proof {
                    lemma_take_all(all);
                }
                true
            },
            _ => false,
        },
    }
}

/// Selects the values of `root` that `path` leads to.
///
/// A name needs an object, an index or a wildcard needs an array: any other value on the way is
/// an error. A value without the named member or index is dropped from the selection, and a
/// selection that becomes empty is an error too.
pub fn select_nodes<'a>(root: &'a JsonValue, path: &ClaimsPathPointer) -> (found: Result<
    Vec<&'a JsonValue>,
    PathError,
>)
    ensures
        match found {
            Ok(nodes) => selected(root.deep_view(), path.deep_view()) == Ok::<
                Seq<JsonModel>,
                PathError,
            >(nodes.deep_view()),
            Err(error) => selected(root.deep_view(), path.deep_view()) == Err::<
                Seq<JsonModel>,
                PathError,
            >(error),
        },
{
    let ghost components = path.deep_view();
    let mut nodes: Vec<&'a JsonValue> = Vec::new();
    nodes.push(root);
    assert(nodes.deep_view() =~= seq![root.deep_view()]);
    assert(components.skip(0) =~= components);
    let mut depth: usize = 0;
    while depth < path.len()
        invariant
            depth <= path.len(),
            components == path.deep_view(),
            selected(root.deep_view(), components) == select_from(
                nodes.deep_view(),
                components.skip(depth as int),
            ),
        decreases path.len() - depth,
    {
        let element = &path[depth];
        let ghost wanted = element.deep_view();
        let ghost current = nodes.deep_view();
        let ghost step = |node: JsonModel| children(wanted, node);
        proof {
            assert(components.skip(depth as int)[0] == wanted);
            assert(components.skip(depth as int).drop_first() =~= components.skip(depth + 1));
            lemma_flat_map_empty(current.take(0), step);
        }
        let mut next: Vec<&'a JsonValue> = Vec::new();
        assert(next.deep_view() =~= current.take(0).flat_map(step));
        let mut i: usize = 0;
        while i < nodes.len()
            invariant
                i <= nodes.len(),
                current == nodes.deep_view(),
                wanted == element.deep_view(),
                step == (|node: JsonModel| children(wanted, node)),
                next.deep_view() == current.take(i as int).flat_map(step),
                forall|j: int| 0 <= j < i ==> applies(wanted, #[trigger] current[j]),
                depth < path.len(),
                components == path.deep_view(),
                components.skip(depth as int).len() > 0,
                components.skip(depth as int)[0] == wanted,
                selected(root.deep_view(), components) == select_from(
                    current,
                    components.skip(depth as int),
                ),
            decreases nodes.len() - i,
        {
            proof {
                lemma_flat_map_step(current, step, i as int);
            }
            if !select_children(nodes[i], element, &mut next) {
                assert(!applies(wanted, current[i as int]));
                return Err(PathError::UnexpectedType);
            }
            i = i + 1;
        }
        proof {
            lemma_take_all(current);
        }
        if next.len() == 0 {
            assert(next.deep_view().len() == 0);
            return Err(PathError::NoMatch);
        }
        assert(next.deep_view().len() > 0);
        nodes = next;
        depth = depth + 1;
    }
    assert(components.skip(depth as int).len() == 0);
    Ok(nodes)
}

/// The component that a JSON value denotes: a string a name, a natural number an index, null a
/// wildcard.
pub open spec fn element_from_json(value: JsonModel) -> Option<PathElementModel> {
    match value {
        JsonModel::String(name) => Some(PathElementModel::String(name)),
        JsonModel::Number(NumberModel::PosInt(index)) => Some(PathElementModel::Index(index)),
        JsonModel::Null => Some(PathElementModel::Wildcard),
        _ => None,
    }
}

/// The path that a JSON value denotes: an array of components.
pub open spec fn path_of_json(value: JsonModel) -> Option<PathModel> {
    match value {
        JsonModel::Array(items) => if forall|i: int|
            0 <= i < items.len() ==> element_from_json(#[trigger] items[i]) is Some {
            Some(items.map_values(|item: JsonModel| element_from_json(item)->0))
        } else {
            None
        },
        _ => None,
    }
}

/// Reads a claims path pointer from its JSON form.
pub fn path_from_json(value: &JsonValue) -> (path: Option<ClaimsPathPointer>)
    ensures
        path.deep_view() == path_of_json(value.deep_view()),
{
    let items = match value {
        JsonValue::Array(items) => items,
        _ => return None,
    };
    proof {
        lemma_json_models(items@);
    }
    let ghost all = items.deep_view();
    let ghost read = |item: JsonModel| element_from_json(item)->0;
    let mut path: ClaimsPathPointer = Vec::new();
    let mut i: usize = 0;
    while i < items.len()
        invariant
            i <= items.len(),
            path.len() == i,
            all == items.deep_view(),
            value.deep_view() == JsonModel::Array(all),
            forall|j: int|
                0 <= j < i ==> element_from_json(#[trigger] all[j]) == Some(
                    path@[j].deep_view(),
                ),
        decreases items.len() - i,
    {
        let element = match &items[i] {
            JsonValue::String(name) => PathElement::String(name.clone()),
            JsonValue::Number(JsonNumber::PosInt(index)) => PathElement::Index(*index),
            JsonValue::Null => PathElement::Wildcard,
            _ => {
                assert(element_from_json(all[i as int]) is None);
                return None;
            },
        };
        path.push(element);
        i = i + 1;
    }
    assert(path.deep_view() =~= all.map_values(read));
    Some(path)
}

/// The path of names in `names`.
pub open spec fn names_path(names: Seq<Text>) -> PathModel {
    names.map_values(|name: Text| PathElementModel::String(name))
}

/// Builds a claims path pointer from string components.
pub fn pointer_from_strings(path: &[&str]) -> (pointer: ClaimsPathPointer)
    ensures
        pointer.deep_view() == names_path(path.deep_view()),
{
    let mut pointer: ClaimsPathPointer = Vec::new();
    let mut i: usize = 0;
    while i < path.len()
        invariant
            i <= path@.len(),
            pointer.len() == i,
            forall|j: int|
                0 <= j < i ==> (#[trigger] pointer@[j]).deep_view() == PathElementModel::String(
                    path@[j]@,
                ),
        decreases path@.len() - i,
    {
        pointer.push(PathElement::String(path[i].to_owned()));
        i = i + 1;
    }
    assert(pointer.deep_view() =~= names_path(path.deep_view()));
    pointer
}

} // verus!
