//! The objects of a target gathered by path, and the dump they end up in.

use vstd::prelude::*;

use crate::config::DumpOptions;
use crate::mem::{Ctx, Ptr};
use crate::model::{ObjectType, ObjectTypeView, ObjectView};
use crate::object_types::read_object_type;
use crate::objects::{FUObjectArray, UObject};
use crate::pathmap::{locate, PathMap};
use crate::paths::HasPath;
use crate::session::{Engine, NumberField, Query, ReadError, Session, World};
use crate::text::{copy_text, same_text, split_outer};

verus! {

broadcast use crate::session::group_traces;

/// Whether an object with that path is a class whose default object lies next to it, under the
/// name of the class behind `Default__`.
pub open spec fn canonical(path: Seq<char>, object: ObjectTypeView) -> bool {
    match (object, crate::text::split_outer_of(path)) {
        (ObjectTypeView::Class(c), Some((outer, name))) => c.class_default_object == Some(
            outer + ".Default__"@ + name,
        ),
        _ => false,
    }
}

/// Tests whether an object is a class whose default object lies where it belongs.
pub fn has_canonical_cdo(class_path: &str, obj: &ObjectType) -> (r: bool)
    ensures
        r == canonical(class_path@, obj.deep_view()),
{
    let class = match obj {
        ObjectType::Class(c) => c,
        _ => {
            return false;
        },
    };
    match (split_outer(class_path), &class.class_default_object) {
        (Some((outer, name)), Some(object)) => {
            let mut expected = String::new();
            expected.append(outer);
            expected.append(".Default__");
            expected.append(name);
            assert(expected@ =~= outer@ + ".Default__"@ + name@);
            same_text(object.as_str(), expected.as_str())
        },
        _ => false,
    }
}

/// `objects` with an object at `path`. Where there is one already, that one stays, unless it is
/// no class with its default object where it belongs and the new one is.
pub open spec fn with_object_at(
    objects: Map<Seq<char>, ObjectTypeView>,
    path: Seq<char>,
    object: ObjectTypeView,
) -> Map<Seq<char>, ObjectTypeView> {
    if objects.dom().contains(path) && !(canonical(path, object) && !canonical(
        path,
        objects[path],
    )) {
        objects
    } else {
        objects.insert(path, object)
    }
}

/// Adds an object to the objects by path.
///
/// Two objects can have one path where a plugin renamed its own class onto another. The default
/// object of a renamed class stays where it was, so that the class whose default object lies where
/// it belongs is the one that has the path by right.
pub fn insert_object(objects: &mut PathMap<ObjectType>, path: String, object: ObjectType)
    ensures
        final(objects).deep_view() == with_object_at(
            old(objects).deep_view(),
            path@,
            object.deep_view(),
        ),
{
    let put = match objects.get(path.as_str()) {
        Some(existing) => {
            let new = has_canonical_cdo(path.as_str(), &object);
            let old_one = has_canonical_cdo(path.as_str(), existing);
            new && !old_one
        },
        None => true,
    };
    if put {
        objects.insert(path, object);
        assert(objects.deep_view() =~= old(objects).deep_view().insert(
            path@,
            object.deep_view(),
        ));
    }
}

/// The objects that were found, by path, and for each path those of the objects that lie in it.
#[verifier::ext_equal]
pub struct Gathered {
    pub objects: Map<Seq<char>, ObjectTypeView>,
    pub children: Map<Seq<char>, Set<Seq<char>>>,
}

impl Gathered {
    /// Nothing.
    pub open spec fn nothing() -> Gathered {
        Gathered { objects: Map::empty(), children: Map::empty() }
    }

    /// The paths of what lies in the object at `outer`.
    pub open spec fn within(self, outer: Seq<char>) -> Set<Seq<char>> {
        if self.children.dom().contains(outer) {
            self.children[outer]
        } else {
            Set::empty()
        }
    }

    /// With one object more.
    pub open spec fn with(self, path: Seq<char>, object: ObjectTypeView) -> Gathered {
        Gathered {
            objects: with_object_at(self.objects, path, object),
            children: match object.object().outer {
                Some(outer) => self.children.insert(outer, self.within(outer).insert(path)),
                None => self.children,
            },
        }
    }

    /// The objects with the paths of what lies in them.
    pub open spec fn finished(self) -> Map<Seq<char>, ObjectTypeView> {
        Map::new(
            |path: Seq<char>| self.objects.dom().contains(path),
            |path: Seq<char>|
                if self.children.dom().contains(path) {
                    with_children(self.objects[path], self.children[path])
                } else {
                    self.objects[path]
                },
        )
    }
}

/// An object with other children.
pub open spec fn with_children(object: ObjectTypeView, children: Set<Seq<char>>) -> ObjectTypeView {
    object.with_object(ObjectView { children, ..object.object() })
}

/// What is gathered of all objects that are found.
pub open spec fn gathered(found: Seq<(Seq<char>, ObjectTypeView)>) -> Gathered
    decreases found.len(),
{
    if found.len() == 0 {
        Gathered::nothing()
    } else {
        gathered(found.drop_last()).with(found.last().0, found.last().1)
    }
}

/// Whether the object at position `i` is a class with that path by right: one whose default object
/// lies where it belongs.
pub open spec fn rightful(
    found: Seq<(Seq<char>, ObjectTypeView)>,
    path: Seq<char>,
    i: int,
) -> bool {
    found[i].0 == path && canonical(path, found[i].1)
}

/// Whether the object at position `i` is the first class with that path by right.
pub open spec fn first_by_right(
    found: Seq<(Seq<char>, ObjectTypeView)>,
    path: Seq<char>,
    i: int,
) -> bool {
    &&& 0 <= i < found.len()
    &&& rightful(found, path, i)
    &&& forall|k: int| 0 <= k < i ==> !#[trigger] rightful(found, path, k)
}

/// Whether the object at position `i` is the first with that path, which none has by right.
pub open spec fn first_by_chance(
    found: Seq<(Seq<char>, ObjectTypeView)>,
    path: Seq<char>,
    i: int,
) -> bool {
    &&& 0 <= i < found.len()
    &&& found[i].0 == path
    &&& forall|k: int| 0 <= k < i ==> (#[trigger] found[k]).0 != path
    &&& forall|k: int| 0 <= k < found.len() ==> !#[trigger] rightful(found, path, k)
}

/// A path ends up with the first class that has it by right, whatever else comes before or after,
/// and with the first object that has it where no class does so by right.
pub proof fn canonical_class_prevails(
    found: Seq<(Seq<char>, ObjectTypeView)>,
    path: Seq<char>,
    i: int,
)
    requires
        first_by_right(found, path, i) || first_by_chance(found, path, i),
    ensures
        gathered(found).objects.dom().contains(path),
        gathered(found).objects[path] == found[i].1,
    decreases found.len(),
{
    let rest = found.drop_last();
    let n = rest.len() as int;
    assert forall|k: int| 0 <= k < n implies #[trigger] rightful(rest, path, k) == rightful(
        found,
        path,
        k,
    ) by {}
    if first_by_chance(found, path, i) {
        assert(!rightful(found, path, n));
    }
    if i < n {
        assert forall|k: int| 0 <= k < i && first_by_chance(found, path, i) implies (
        #[trigger] rest[k]).0 != path by {
            assert(found[k].0 != path);
        }
        assert(rightful(rest, path, i) == rightful(found, path, i));
        canonical_class_prevails(rest, path, i);
    } else {
        gathered_is_what_was_found(rest, path);
        if gathered(rest).objects.dom().contains(path) {
            let x = (path, gathered(rest).objects[path]);
            let k = choose|k: int| 0 <= k < rest.len() && rest[k] == x;
            assert(found[k] == x);
            assert(!rightful(found, path, k));
        }
    }
}

/// Objects with different paths can come in any order.
pub proof fn order_of_paths_is_free(
    g: Gathered,
    path: Seq<char>,
    object: ObjectTypeView,
    other_path: Seq<char>,
    other: ObjectTypeView,
)
    requires
        path != other_path,
    ensures
        g.with(path, object).with(other_path, other) == g.with(other_path, other).with(
            path,
            object,
        ),
{
    let a = g.with(path, object).with(other_path, other);
    let b = g.with(other_path, other).with(path, object);
    assert(a.objects =~= b.objects);
    assert forall|k: Seq<char>| a.children.dom().contains(k) implies a.children[k]
        =~= b.children[k] by {}
    assert(a.children =~= b.children);
}

/// Whether an object with that path that lies in `outer` was found.
pub open spec fn found_within(
    found: Seq<(Seq<char>, ObjectTypeView)>,
    outer: Seq<char>,
    path: Seq<char>,
) -> bool {
    exists|i: int|
        0 <= i < found.len() && (#[trigger] found[i]).0 == path && found[i].1.object().outer
            == Some(outer)
}

/// Whether an object with that path was found.
pub open spec fn was_found(found: Seq<(Seq<char>, ObjectTypeView)>, path: Seq<char>) -> bool {
    exists|i: int| 0 <= i < found.len() && (#[trigger] found[i]).0 == path
}

/// What is gathered has each path that was found and no other; under each path it lists exactly
/// those that were found to lie in it, those that lost their path to another object too; and what
/// it has at a path is one of the objects found there.
pub proof fn gathered_is_what_was_found(found: Seq<(Seq<char>, ObjectTypeView)>, path: Seq<char>)
    ensures
        gathered(found).objects.dom().contains(path) <==> was_found(found, path),
        forall|child: Seq<char>| #[trigger]
            gathered(found).within(path).contains(child) <==> found_within(found, path, child),
        gathered(found).objects.dom().contains(path) ==> found.contains(
            (path, gathered(found).objects[path]),
        ),
    decreases found.len(),
{
    if found.len() > 0 {
        let rest = found.drop_last();
        let last = found.last();
        gathered_is_what_was_found(rest, path);
        assert(found[found.len() - 1] == last);
        if was_found(rest, path) {
            let i = choose|i: int| 0 <= i < rest.len() && (#[trigger] rest[i]).0 == path;
            assert(found[i] == rest[i]);
        }
        if was_found(found, path) {
            let i = choose|i: int| 0 <= i < found.len() && (#[trigger] found[i]).0 == path;
            if i < rest.len() {
                assert(found[i] == rest[i]);
            }
        }
        assert forall|child: Seq<char>| #[trigger]
            gathered(found).within(path).contains(child) <==> found_within(found, path, child) by {
            assert(gathered(rest).within(path).contains(child) <==> found_within(rest, path, child));
            if found_within(rest, path, child) {
                let i = choose|i: int|
                    0 <= i < rest.len() && (#[trigger] rest[i]).0 == child
                        && rest[i].1.object().outer == Some(path);
                assert(found[i] == rest[i]);
            }
            if found_within(found, path, child) {
                let i = choose|i: int|
                    0 <= i < found.len() && (#[trigger] found[i]).0 == child
                        && found[i].1.object().outer == Some(path);
                if i < rest.len() {
                    assert(found[i] == rest[i]);
                }
            }
        }
        if gathered(rest).objects.dom().contains(path) {
            let x = (path, gathered(rest).objects[path]);
            let i = choose|i: int| 0 <= i < rest.len() && rest[i] == x;
            assert(found[i] == x);
        }
    }
}

/// Gathers the objects that are found.
pub struct Collector {
    objects: PathMap<ObjectType>,
    child_map: PathMap<PathMap<()>>,
}

impl View for Collector {
    type V = Gathered;

    closed spec fn view(&self) -> Gathered {
        Gathered {
            objects: self.objects.deep_view(),
            children: Map::new(
                |path: Seq<char>| self.child_map@.dom().contains(path),
                |path: Seq<char>| self.child_map@[path]@.dom(),
            ),
        }
    }
}

impl Collector {
    /// Gathers nothing yet.
    pub fn new() -> (r: Self)
        ensures
            r@ == Gathered::nothing(),
    {
        let r = Collector { objects: PathMap::new(), child_map: PathMap::new() };
        assert(r@.objects =~= Map::<Seq<char>, ObjectTypeView>::empty());
        assert(r@.children =~= Map::<Seq<char>, Set<Seq<char>>>::empty());
        r
    }

    /// Adds an object with that path.
    pub fn add(&mut self, path: String, object: ObjectType)
        ensures
            final(self)@ == old(self)@.with(path@, object.deep_view()),
    {
        let ghost before = self@;
        if let Some(outer) = &object.get_object().outer {
            let mut paths = match self.child_map.replace(outer.as_str(), PathMap::new()) {
                Some(paths) => paths,
                None => PathMap::new(),
            };
            assert(paths@.dom() =~= before.within(outer@));
            paths.insert(path.clone(), ());
            self.child_map.insert(outer.clone(), paths);
            assert(paths@.dom() =~= before.within(outer@).insert(path@));
            assert(self@.children =~= before.children.insert(
                outer@,
                before.within(outer@).insert(path@),
            ));
        }
        insert_object(&mut self.objects, path, object);
    }

    /// The objects with the paths of what lies in them.
    pub fn finish(self) -> (r: PathMap<ObjectType>)
        ensures
            r.deep_view() == self@.finished(),
    {
        let ghost gathered = self@;
        let ghost child_map = self.child_map;
        let ghost objects = self.objects;
        let mut entries = self.objects.into_entries();
        let mut lists = self.child_map.into_entries();
        let ghost before = entries@;
        let ghost all = lists@;
        while lists.len() > 0
            invariant
                lists@.len() <= all.len(),
                lists@ == all.take(lists@.len() as int),
                crate::pathmap::keys_rise(all),
                crate::pathmap::keys_rise(entries@),
                crate::pathmap::keys_rise(before),
                entries@.len() == before.len(),
                forall|k: int| 0 <= k < before.len() ==> (#[trigger] entries@[k]).0@ == before[k].0@,
                forall|k: int|
                    #![trigger entries@[k]]
                    0 <= k < before.len() ==> entries@[k].1.deep_view() == assigned(
                        all,
                        lists@.len() as int,
                        before[k].0@,
                        before[k].1.deep_view(),
                    ),
            decreases lists@.len(),
        {
            let ghost n = lists@.len() - 1;
            let ghost earlier = entries@;
            match lists.pop() {
                Some((outer, children)) => {
                    assert(lists@ =~= all.take(n));
                    assert(all[n] == (outer, children));
                    let (i, found) = locate(&entries, outer.as_str());
                    if found {
                        entries[i].1.set_children(children);
                    }
                    proof {
                        assert forall|k: int|
                            #![trigger entries@[k]]
                            0 <= k < before.len() implies entries@[k].0@ == before[k].0@ by {
                            assert(earlier[k].0@ == before[k].0@);
                        }
                        assert forall|k: int|
                            #![trigger entries@[k]]
                            0 <= k < before.len() implies entries@[k].1.deep_view() == assigned(
                            all,
                            n,
                            before[k].0@,
                            before[k].1.deep_view(),
                        ) by {
                            assert(earlier[k].0@ == before[k].0@);
                            lemma_assigned_step(all, n, before[k].0@, before[k].1.deep_view());
                            if found && k != i {
                                crate::text::sorts_before_is_total_order(outer@, outer@, outer@);
                                assert(earlier[i as int].0@ == outer@);
                                assert(earlier[k].0@ != outer@);
                            }
                            if !found {
                                assert(!crate::pathmap::key_at(earlier, outer@, k));
                            }
                        }
                        assert forall|a: int, b: int|
                            #![trigger entries@[a], entries@[b]]
                            0 <= a < b < entries@.len() implies crate::text::sorts_before(
                            entries@[a].0@,
                            entries@[b].0@,
                        ) by {
                            assert(before[a].0@ == entries@[a].0@ && before[b].0@ == entries@[b].0@);
                        }
                    }
                },
                None => {},
            }
        }
        let r = PathMap::from_entries(entries);
        proof {
            assert forall|path: Seq<char>|
                r@.dom().contains(path) == gathered.objects.dom().contains(path) by {
                if crate::pathmap::has_key(before, path) {
                    let k = choose|k: int| crate::pathmap::key_at(before, path, k);
                    assert(entries@[k].0@ == before[k].0@);
                    assert(crate::pathmap::key_at(entries@, path, k));
                }
                if crate::pathmap::has_key(entries@, path) {
                    let k = choose|k: int| crate::pathmap::key_at(entries@, path, k);
                    assert(crate::pathmap::key_at(before, path, k));
                }
            }
            assert forall|path: Seq<char>| r@.dom().contains(path) implies r@[path].deep_view()
                == gathered.finished()[path] by {
                let k = choose|k: int| crate::pathmap::key_at(entries@, path, k);
                assert(crate::pathmap::key_at(before, path, k));
                crate::pathmap::lemma_entry_value(entries@, path, k);
                crate::pathmap::lemma_entry_value(before, path, k);
                lemma_assigned_all(all, path, before[k].1.deep_view());
                assert(crate::pathmap::entries_map(all) == child_map@);
            }
            assert(r.deep_view() =~= gathered.finished());
        }
        r
    }
}

/// An object with the children that the lists from position `n` on name for its path.
spec fn assigned(
    lists: Seq<(String, PathMap<()>)>,
    n: int,
    path: Seq<char>,
    object: ObjectTypeView,
) -> ObjectTypeView
    decreases lists.len() - n,
{
    if n >= lists.len() || n < 0 {
        object
    } else if lists[n].0@ == path {
        with_children(object, lists[n].1@.dom())
    } else {
        assigned(lists, n + 1, path, object)
    }
}

proof fn lemma_assigned_none(
    lists: Seq<(String, PathMap<()>)>,
    n: int,
    path: Seq<char>,
    object: ObjectTypeView,
)
    requires
        0 <= n,
        forall|k: int| n <= k < lists.len() ==> (#[trigger] lists[k]).0@ != path,
    ensures
        assigned(lists, n, path, object) == object,
    decreases lists.len() - n,
{
    if n < lists.len() {
        lemma_assigned_none(lists, n + 1, path, object);
    }
}

proof fn lemma_assigned_step(
    lists: Seq<(String, PathMap<()>)>,
    n: int,
    path: Seq<char>,
    object: ObjectTypeView,
)
    requires
        0 <= n < lists.len(),
        crate::pathmap::keys_rise(lists),
    ensures
        lists[n].0@ == path ==> assigned(lists, n + 1, path, object) == object,
{
    if lists[n].0@ == path {
        crate::text::sorts_before_is_total_order(path, path, path);
        lemma_assigned_none(lists, n + 1, path, object);
    }
}

proof fn lemma_assigned_all(
    lists: Seq<(String, PathMap<()>)>,
    path: Seq<char>,
    object: ObjectTypeView,
)
    requires
        crate::pathmap::keys_rise(lists),
    ensures
        assigned(lists, 0, path, object) == (if crate::pathmap::has_key(lists, path) {
            with_children(object, crate::pathmap::entries_map(lists)[path]@.dom())
        } else {
            object
        }),
{
    if crate::pathmap::has_key(lists, path) {
        let k = choose|k: int| crate::pathmap::key_at(lists, path, k);
        crate::pathmap::lemma_entry_value(lists, path, k);
        lemma_assigned_at(lists, 0, k, path, object);
    } else {
        assert forall|k: int| 0 <= k < lists.len() implies (#[trigger] lists[k]).0@ != path by {
            assert(!crate::pathmap::key_at(lists, path, k));
        }
        lemma_assigned_none(lists, 0, path, object);
    }
}

proof fn lemma_assigned_at(
    lists: Seq<(String, PathMap<()>)>,
    n: int,
    k: int,
    path: Seq<char>,
    object: ObjectTypeView,
)
    requires
        crate::pathmap::keys_rise(lists),
        0 <= n <= k,
        crate::pathmap::key_at(lists, path, k),
    ensures
        assigned(lists, n, path, object) == with_children(object, lists[k].1@.dom()),
    decreases k - n,
{
    crate::text::sorts_before_is_total_order(path, path, path);
    if n < k {
        assert(lists[n].0@ != path);
        lemma_assigned_at(lists, n + 1, k, path, object);
    }
}

/// In a finished dump each object lists exactly what was found to lie in it.
pub proof fn finished_children_are_what_lies_within(
    found: Seq<(Seq<char>, ObjectTypeView)>,
    path: Seq<char>,
)
    requires
        forall|i: int|
            0 <= i < found.len() ==> (#[trigger] found[i]).1.object().children == Set::<
                Seq<char>,
            >::empty(),
        was_found(found, path),
    ensures
        gathered(found).finished().dom().contains(path),
        gathered(found).finished()[path].object().children == Set::new(
            |child: Seq<char>| found_within(found, path, child),
        ),
{
    gathered_is_what_was_found(found, path);
    let x = (path, gathered(found).objects[path]);
    let i = choose|i: int| 0 <= i < found.len() && found[i] == x;
    assert(found[i].1.object().children == Set::<Seq<char>>::empty());
    assert(gathered(found).finished()[path].object().children =~= gathered(found).within(path));
    assert(gathered(found).within(path) =~= Set::new(
        |child: Seq<char>| found_within(found, path, child),
    ));
}

proof fn lemma_children_known(found: Seq<(Seq<char>, ObjectTypeView)>, outer: Seq<char>)
    ensures
        gathered(found).children.dom().contains(outer) <==> exists|child: Seq<char>| #[trigger]
            found_within(found, outer, child),
    decreases found.len(),
{
    if found.len() > 0 {
        let rest = found.drop_last();
        let last = found.last();
        lemma_children_known(rest, outer);
        assert(found[found.len() - 1] == last);
        if exists|child: Seq<char>| #[trigger] found_within(rest, outer, child) {
            let child = choose|child: Seq<char>| #[trigger] found_within(rest, outer, child);
            let i = choose|i: int|
                0 <= i < rest.len() && (#[trigger] rest[i]).0 == child && rest[i].1.object().outer
                    == Some(outer);
            assert(found[i] == rest[i]);
            assert(found_within(found, outer, child));
        }
        if last.1.object().outer == Some(outer) {
            assert(found_within(found, outer, last.0));
        }
        if exists|child: Seq<char>| #[trigger] found_within(found, outer, child) {
            let child = choose|child: Seq<char>| #[trigger] found_within(found, outer, child);
            let i = choose|i: int|
                0 <= i < found.len() && (#[trigger] found[i]).0 == child
                    && found[i].1.object().outer == Some(outer);
            if i < rest.len() {
                assert(rest[i] == found[i]);
                assert(found_within(rest, outer, child));
            }
        }
    }
}

proof fn lemma_found_alike(
    a: Seq<(Seq<char>, ObjectTypeView)>,
    b: Seq<(Seq<char>, ObjectTypeView)>,
    path: Seq<char>,
    child: Seq<char>,
)
    requires
        forall|x: (Seq<char>, ObjectTypeView)| #[trigger] a.contains(x) ==> b.contains(x),
    ensures
        was_found(a, path) ==> was_found(b, path),
        found_within(a, path, child) ==> found_within(b, path, child),
{
    if was_found(a, path) {
        let i = choose|i: int| 0 <= i < a.len() && (#[trigger] a[i]).0 == path;
        assert(a.contains(a[i]));
        let j = choose|j: int| 0 <= j < b.len() && b[j] == a[i];
        assert(b[j].0 == path);
    }
    if found_within(a, path, child) {
        let i = choose|i: int|
            0 <= i < a.len() && (#[trigger] a[i]).0 == child && a[i].1.object().outer == Some(path);
        assert(a.contains(a[i]));
        let j = choose|j: int| 0 <= j < b.len() && b[j] == a[i];
        assert(b[j].0 == child);
    }
}

/// Whether no two different objects have one path.
pub open spec fn paths_differ(found: Seq<(Seq<char>, ObjectTypeView)>) -> bool {
    forall|i: int, j: int|
        #![trigger found[i], found[j]]
        0 <= i < found.len() && 0 <= j < found.len() && found[i].0 == found[j].0 ==> found[i]
            == found[j]
}

/// In which order objects are found changes nothing where no two different ones have one path.
pub proof fn order_of_finds_is_free(
    a: Seq<(Seq<char>, ObjectTypeView)>,
    b: Seq<(Seq<char>, ObjectTypeView)>,
)
    requires
        paths_differ(a),
        forall|x: (Seq<char>, ObjectTypeView)| #[trigger] a.contains(x) <==> b.contains(x),
    ensures
        gathered(a) == gathered(b),
{
    let x = gathered(a);
    let y = gathered(b);
    assert forall|path: Seq<char>|
        x.objects.dom().contains(path) == y.objects.dom().contains(path) by {
        gathered_is_what_was_found(a, path);
        gathered_is_what_was_found(b, path);
        lemma_found_alike(a, b, path, path);
        lemma_found_alike(b, a, path, path);
    }
    assert forall|path: Seq<char>| x.objects.dom().contains(path) implies x.objects[path]
        == y.objects[path] by {
        gathered_is_what_was_found(a, path);
        gathered_is_what_was_found(b, path);
        let p = (path, x.objects[path]);
        let q = (path, y.objects[path]);
        assert(a.contains(p) && b.contains(q) && a.contains(q));
        let i = choose|i: int| 0 <= i < a.len() && a[i] == p;
        let j = choose|j: int| 0 <= j < a.len() && a[j] == q;
        assert(a[i].0 == a[j].0);
    }
    assert(x.objects =~= y.objects);
    assert forall|outer: Seq<char>|
        #![trigger x.children.dom().contains(outer)]
        #![trigger y.children.dom().contains(outer)]
        #![trigger x.within(outer)]
        x.children.dom().contains(outer) == y.children.dom().contains(outer) && x.within(outer)
            =~= y.within(outer) by {
        lemma_children_known(a, outer);
        lemma_children_known(b, outer);
        gathered_is_what_was_found(a, outer);
        gathered_is_what_was_found(b, outer);
        assert forall|child: Seq<char>| #[trigger]
            found_within(a, outer, child) == found_within(b, outer, child) by {
            lemma_found_alike(a, b, outer, child);
            lemma_found_alike(b, a, outer, child);
        }
        assert forall|child: Seq<char>|
            x.within(outer).contains(child) == y.within(outer).contains(child) by {
            assert(found_within(a, outer, child) == found_within(b, outer, child));
        }
        if exists|child: Seq<char>| #[trigger] found_within(b, outer, child) {
            let child = choose|child: Seq<char>| #[trigger] found_within(b, outer, child);
            assert(found_within(a, outer, child));
        }
    }
    assert forall|outer: Seq<char>| #[trigger] x.children.dom().contains(outer) implies x.children[
        outer
    ] == y.children[outer] by {
        assert(x.within(outer) =~= y.within(outer));
    }
    assert(x.children.dom() =~= y.children.dom());
    assert(x.children =~= y.children);
}

/// The object at position `i` of the object array, with its path; nothing where there is none,
/// where it does not know its own position, or where it is not dumped.
#[verifier::opaque]
pub open spec fn item_of(w: World, t: nat, v: (u16, u16), array: u64, i: usize, all: bool) -> (
    Result<Option<(Seq<char>, ObjectTypeView)>, ReadError>,
    nat,
) {
    match w.optional(t, Query::ArrayItem { base: array, index: i }) {
        (Ok(Some(obj)), t1) => match w.number(t1, obj, NumberField::ObjectInternalIndex) {
            (Ok(n), t2) => if n as usize != i {
                (Ok(None), t2)
            } else {
                match crate::paths::path_of(w, t2, obj) {
                    (Ok(path), t3) => match crate::object_types::object_type_of(
                        w,
                        t3,
                        v,
                        obj,
                        path,
                        all,
                    ) {
                        (Ok(Some(object)), t4) => (Ok(Some((path, object))), t4),
                        (Ok(None), t4) => (Ok(None), t4),
                        (Err(e), t4) => (Err(e), t4),
                    },
                    (Err(e), t3) => (Err(e), t3),
                }
            },
            (Err(ReadError::BudgetExhausted), t2) => (Err(ReadError::BudgetExhausted), t2),
            (Err(_), t2) => (Ok(None), t2),
        },
        (Ok(None), t1) => (Ok(None), t1),
        (Err(e), t1) => (Err(e), t1),
    }
}

/// The objects at positions `i` to `n` of the object array with their paths, behind `seen`.
pub open spec fn items_of(
    w: World,
    t: nat,
    v: (u16, u16),
    array: u64,
    i: usize,
    n: usize,
    all: bool,
    seen: Seq<(Seq<char>, ObjectTypeView)>,
) -> (Result<Seq<(Seq<char>, ObjectTypeView)>, ReadError>, nat)
    decreases n - i,
{
    if i >= n {
        (Ok(seen), t)
    } else {
        match item_of(w, t, v, array, i, all) {
            (Ok(found), t1) => items_of(
                w,
                t1,
                v,
                array,
                (i + 1) as usize,
                n,
                all,
                match found {
                    Some(x) => seen.push(x),
                    None => seen,
                },
            ),
            (Err(e), t1) => (Err(e), t1),
        }
    }
}

/// The number of objects that are looked at.
pub open spec fn item_count(w: World, t: nat, array: u64, options: DumpOptions) -> (
    Result<usize, ReadError>,
    nat,
) {
    if options.skip_objects {
        (Ok(0), t)
    } else {
        match w.number(t, array, NumberField::ArrayNumElements) {
            (Ok(n), t1) => (Ok(n as usize), t1),
            (Err(e), t1) => (Err(e), t1),
        }
    }
}

/// The objects of a target by path.
pub open spec fn objects_of(w: World, t: nat, v: (u16, u16), array: u64, options: DumpOptions) -> (
    Result<Map<Seq<char>, ObjectTypeView>, ReadError>,
    nat,
) {
    if array == 0 {
        (Err(ReadError::NullPointer), t)
    } else {
        match item_count(w, t, array, options) {
            (Ok(n), t1) => match items_of(
                w,
                t1,
                v,
                array,
                0,
                n,
                options.all,
                Seq::empty(),
            ) {
                (Ok(found), t2) => (Ok(gathered(found).finished()), t2),
                (Err(e), t2) => (Err(e), t2),
            },
            (Err(e), t1) => (Err(e), t1),
        }
    }
}

broadcast proof fn lemma_kind_without_children(
    w: World,
    t: nat,
    v: (u16, u16),
    obj: u64,
    kind: crate::object_types::ObjectKind,
)
    ensures
        #![trigger crate::object_types::kind_of(w, t, v, obj, kind)]
        crate::object_types::kind_of(w, t, v, obj, kind).0 matches Ok(x) ==> x.object().children
            == Set::<Seq<char>>::empty(),
{
}

proof fn lemma_item_without_children(
    w: World,
    t: nat,
    v: (u16, u16),
    array: u64,
    i: usize,
    all: bool,
)
    ensures
        item_of(w, t, v, array, i, all).0 matches Ok(Some(x)) ==> x.1.object().children == Set::<
            Seq<char>,
        >::empty(),
{
    broadcast use lemma_kind_without_children;

    reveal(item_of);
}

proof fn lemma_found_without_children(
    w: World,
    t: nat,
    v: (u16, u16),
    array: u64,
    i: usize,
    n: usize,
    all: bool,
    seen: Seq<(Seq<char>, ObjectTypeView)>,
)
    requires
        forall|k: int|
            0 <= k < seen.len() ==> (#[trigger] seen[k]).1.object().children == Set::<
                Seq<char>,
            >::empty(),
    ensures
        items_of(w, t, v, array, i, n, all, seen).0 matches Ok(found) ==> forall|k: int|
            0 <= k < found.len() ==> (#[trigger] found[k]).1.object().children == Set::<
                Seq<char>,
            >::empty(),
    decreases n - i,
{
    if i < n {
        match item_of(w, t, v, array, i, all) {
            (Ok(Some(x)), t1) => {
                lemma_item_without_children(w, t, v, array, i, all);
                lemma_found_without_children(
                    w,
                    t1,
                    v,
                    array,
                    (i + 1) as usize,
                    n,
                    all,
                    seen.push(x),
                );
            },
            (Ok(None), t1) => {
                lemma_found_without_children(w, t1, v, array, (i + 1) as usize, n, all, seen);
            },
            (Err(_), _) => {},
        }
    }
}

proof fn lemma_item_selected(w: World, t: nat, v: (u16, u16), array: u64, i: usize, all: bool)
    ensures
        item_of(w, t, v, array, i, all).0 matches Ok(Some(x)) ==> crate::object_types::selected(
            x.0,
            all,
        ),
{
    reveal(item_of);
}

/// Only objects that are asked for are dumped: all of them, or those whose path begins with
/// `/Script/`.
pub proof fn only_selected_objects_are_found(
    w: World,
    t: nat,
    v: (u16, u16),
    array: u64,
    i: usize,
    n: usize,
    all: bool,
    seen: Seq<(Seq<char>, ObjectTypeView)>,
)
    requires
        forall|k: int|
            0 <= k < seen.len() ==> crate::object_types::selected((#[trigger] seen[k]).0, all),
    ensures
        items_of(w, t, v, array, i, n, all, seen).0 matches Ok(found) ==> forall|k: int|
            0 <= k < found.len() ==> crate::object_types::selected((#[trigger] found[k]).0, all),
    decreases n - i,
{
    if i < n {
        match item_of(w, t, v, array, i, all) {
            (Ok(Some(x)), t1) => {
                lemma_item_selected(w, t, v, array, i, all);
                only_selected_objects_are_found(
                    w,
                    t1,
                    v,
                    array,
                    (i + 1) as usize,
                    n,
                    all,
                    seen.push(x),
                );
            },
            (Ok(None), t1) => {
                only_selected_objects_are_found(w, t1, v, array, (i + 1) as usize, n, all, seen);
            },
            (Err(_), _) => {},
        }
    }
}

/// In a dump of a target each path is that of an object that was found, and each object lists as
/// its children exactly the paths of the objects that were found to lie in it.
pub proof fn dump_lists_children(
    w: World,
    t: nat,
    v: (u16, u16),
    array: u64,
    n: usize,
    all: bool,
    found: Seq<(Seq<char>, ObjectTypeView)>,
    path: Seq<char>,
)
    requires
        items_of(w, t, v, array, 0, n, all, Seq::empty()).0 == Ok::<_, ReadError>(found),
    ensures
        gathered(found).finished().dom().contains(path) <==> was_found(found, path),
        was_found(found, path) ==> gathered(found).finished()[path].object().children == Set::new(
            |child: Seq<char>| found_within(found, path, child),
        ),
{
    lemma_found_without_children(w, t, v, array, 0, n, all, Seq::empty());
    gathered_is_what_was_found(found, path);
    if was_found(found, path) {
        finished_children_are_what_lies_within(found, path);
    }
}

/// Reads the object at position `i` of the object array, with its path; nothing where there is
/// none, where it does not know its own position, or where the options leave it out.
pub fn dump_one<E: Engine>(
    s: &mut Session<E>,
    uobjectarray: &Ptr<FUObjectArray>,
    i: usize,
    options: &DumpOptions,
) -> (r: Result<Option<(String, ObjectType)>, ReadError>)
    ensures
        final(s).trace().extends(old(s).trace()),
        forall|w: World| #[trigger]
            w.explains(final(s).trace()) ==> item_of(
                w,
                old(s).now(),
                old(s).version(),
                uobjectarray.addr(),
                i,
                options.all,
            ) == (crate::session::outcome(r), final(s).now()),
{
    proof {
        reveal(item_of);
    }
    let query = Query::ArrayItem { base: uobjectarray.address(), index: i };
    let obj = match s.optional::<FUObjectArray, UObject>(uobjectarray, query) {
        Ok(Some(obj)) => obj,
        Ok(None) => {
            return Ok(None);
        },
        Err(e) => {
            return Err(e);
        },
    };
    match s.number(obj.address(), NumberField::ObjectInternalIndex) {
        Ok(n) => {
            if n as usize != i {
                return Ok(None);
            }
        },
        Err(ReadError::BudgetExhausted) => {
            return Err(ReadError::BudgetExhausted);
        },
        Err(_) => {
            return Ok(None);
        },
    }
    let path = match obj.path(s) {
        Ok(path) => path,
        Err(e) => {
            return Err(e);
        },
    };
    match read_object_type(s, &obj, path.as_str(), options) {
        Ok(Some(object)) => Ok(Some((path, object))),
        Ok(None) => Ok(None),
        Err(e) => Err(e),
    }
}

/// Reads the objects of the target.
pub fn dump_objects<E: Engine>(s: &mut Session<E>, options: &DumpOptions) -> (r: Result<
    PathMap<ObjectType>,
    ReadError,
>)
    ensures
        final(s).trace().extends(old(s).trace()),
        forall|w: World| #[trigger]
            w.explains(final(s).trace()) ==> objects_of(
                w,
                old(s).now(),
                old(s).version(),
                old(s).spec_ctx().spec_inner().uobjectarray,
                *options,
            ) == (crate::session::outcome(r), final(s).now()),
{
    let ctx = s.ctx().clone();
    let uobjectarray: Ptr<FUObjectArray> = match Ptr::new(ctx.inner().uobjectarray, ctx.clone()) {
        Ok(p) => p,
        Err(_) => {
            return Err(ReadError::NullPointer);
        },
    };
    let n: usize = if options.skip_objects {
        0
    } else {
        match s.number(uobjectarray.address(), NumberField::ArrayNumElements) {
            Ok(n) => n as usize,
            Err(e) => {
                return Err(e);
            },
        }
    };
    let ghost t0 = s.trace();
    let ghost start = s.now();
    let ghost v = s.version();
    let mut collector = Collector::new();
    let ghost mut found: Seq<(Seq<char>, ObjectTypeView)> = Seq::empty();
    let mut i: usize = 0;
    while i < n
        invariant
            i <= n,
            start == t0.now(),
            ctx == old(s).spec_ctx(),
            v == old(s).version(),
            uobjectarray.addr() == ctx.spec_inner().uobjectarray,
            uobjectarray.addr() != 0,
            t0.extends(old(s).trace()),
            s.trace().extends(t0),
            forall|w: World| #[trigger]
                w.explains(t0) ==> item_count(w, old(s).now(), uobjectarray.addr(), *options) == (
                    Ok::<usize, ReadError>(n),
                    start,
                ),
            forall|w: World| #[trigger]
                w.explains(s.trace()) ==> items_of(
                    w,
                    start,
                    v,
                    uobjectarray.addr(),
                    0,
                    n,
                    options.all,
                    Seq::empty(),
                ) == items_of(
                    w,
                    s.now(),
                    v,
                    uobjectarray.addr(),
                    i,
                    n,
                    options.all,
                    found,
                ),
            collector@ == gathered(found),
        decreases n - i,
    {
        match dump_one(s, &uobjectarray, i, options) {
            Ok(Some((path, object))) => {
                collector.add(path, object);
                proof {
                    let x = (path@, object.deep_view());
                    assert(found.push(x).drop_last() =~= found);
                    found = found.push(x);
                }
            },
            Ok(None) => {},
            Err(e) => {
                return Err(e);
            },
        }
        i = i + 1;
    }
    Ok(collector.finish())
}

/// A version of the engine.
#[derive(Clone, Copy, PartialEq, Eq, Debug, Structural)]
pub struct EngineVersion {
    pub major: u16,
    pub minor: u16,
}

/// Where a dump comes from.
#[derive(PartialEq, Eq, Debug)]
pub struct Metadata {
    pub tool: String,
    pub timestamp: String,
    pub source: String,
    pub engine_version: EngineVersion,
    pub build_change_list: Option<String>,
}

/// A dump. `T` is what is known of a vtable, `N` the table of names.
#[derive(PartialEq, Debug)]
pub struct Jmap<T, N> {
    pub metadata: Option<Metadata>,
    pub image_base_address: u64,
    pub objects: PathMap<ObjectType>,
    pub vtables: Vec<T>,
    pub names: Option<N>,
}

/// Whether the metadata are those of a dump of the target of a context, taken at that time.
pub open spec fn describes(m: Metadata, ctx: Ctx, source_name: Seq<char>, timestamp: String) -> bool {
    &&& m.tool@ == "https://github.com/trumank/jmap"@
    &&& m.timestamp == timestamp
    &&& m.source@ == source_name
    &&& m.engine_version.major == ctx.spec_inner().version.0
    &&& m.engine_version.minor == ctx.spec_inner().version.1
    &&& m.build_change_list == ctx.spec_inner().build_change_list
}

/// Whether putting a dump together may end with `r`. The objects go through `analyze`, which finds
/// the vtables, unless that is left out; there are no vtables then. What `extract` gives is the
/// table of names, which is there only where it is asked for. The time comes from `clock`.
pub open spec fn assembled<
    T,
    N,
    A: FnOnce(PathMap<ObjectType>) -> (PathMap<ObjectType>, Vec<T>),
    B: FnOnce() -> Result<N, ReadError>,
    C: FnOnce() -> String,
>(
    ctx: Ctx,
    source_name: Seq<char>,
    options: DumpOptions,
    objects: PathMap<ObjectType>,
    analyze: A,
    extract: B,
    clock: C,
    r: Result<Jmap<T, N>, ReadError>,
) -> bool {
    match r {
        Ok(dump) => {
            &&& dump.image_base_address == ctx.spec_inner().image_base_address
            &&& dump.metadata matches Some(m) && clock.ensures((), m.timestamp) && describes(
                m,
                ctx,
                source_name,
                m.timestamp,
            )
            &&& if options.skip_vtables {
                dump.objects == objects && dump.vtables@.len() == 0
            } else {
                analyze.ensures((objects,), (dump.objects, dump.vtables))
            }
            &&& if options.names {
                dump.names matches Some(names) && extract.ensures((), Ok(names))
            } else {
                dump.names is None
            }
        },
        Err(e) => options.names && extract.ensures((), Err(e)),
    }
}

/// Puts a dump of the target of a context together.
pub fn assemble<
    T,
    N,
    A: FnOnce(PathMap<ObjectType>) -> (PathMap<ObjectType>, Vec<T>),
    B: FnOnce() -> Result<N, ReadError>,
    C: FnOnce() -> String,
>(
    ctx: &Ctx,
    source_name: &str,
    options: &DumpOptions,
    objects: PathMap<ObjectType>,
    analyze: A,
    extract: B,
    clock: C,
) -> (r: Result<Jmap<T, N>, ReadError>)
    requires
        !options.skip_vtables ==> analyze.requires((objects,)),
        options.names ==> extract.requires(()),
        clock.requires(()),
    ensures
        assembled(*ctx, source_name@, *options, objects, analyze, extract, clock, r),
{
    let (objects, vtables) = if options.skip_vtables {
        (objects, Vec::new())
    } else {
        analyze(objects)
    };
    let names = if options.names {
        match extract() {
            Ok(names) => Some(names),
            Err(e) => {
                return Err(e);
            },
        }
    } else {
        None
    };
    let (major, minor) = ctx.ue_version();
    let metadata = Metadata {
        tool: "https://github.com/trumank/jmap".to_string(),
        timestamp: clock(),
        source: source_name.to_string(),
        engine_version: EngineVersion { major, minor },
        build_change_list: copy_text(&ctx.inner().build_change_list),
    };
    Ok(
        Jmap {
            metadata: Some(metadata),
            image_base_address: ctx.inner().image_base_address,
            objects,
            vtables,
            names,
        },
    )
}

/// Whether dumping a target whose objects are `objects` may end with `r`.
pub open spec fn dumped<
    T,
    N,
    A: FnOnce(PathMap<ObjectType>) -> (PathMap<ObjectType>, Vec<T>),
    B: FnOnce() -> Result<N, ReadError>,
    C: FnOnce() -> String,
>(
    ctx: Ctx,
    source_name: Seq<char>,
    options: DumpOptions,
    objects: Result<Map<Seq<char>, ObjectTypeView>, ReadError>,
    analyze: A,
    extract: B,
    clock: C,
    r: Result<Jmap<T, N>, ReadError>,
) -> bool {
    match objects {
        Ok(by_path) => exists|found: PathMap<ObjectType>|
            found.deep_view() == by_path && #[trigger] assembled(
                ctx,
                source_name,
                options,
                found,
                analyze,
                extract,
                clock,
                r,
            ),
        Err(e) => r == Err::<Jmap<T, N>, ReadError>(e),
    }
}

/// Dumps the target of a session.
pub fn dump_inner<
    E: Engine,
    T,
    N,
    A: FnOnce(PathMap<ObjectType>) -> (PathMap<ObjectType>, Vec<T>),
    B: FnOnce() -> Result<N, ReadError>,
    C: FnOnce() -> String,
>(
    s: &mut Session<E>,
    source_name: &str,
    options: &DumpOptions,
    analyze: A,
    extract: B,
    clock: C,
) -> (r: Result<Jmap<T, N>, ReadError>)
    requires
        !options.skip_vtables ==> forall|objects: PathMap<ObjectType>| #[trigger]
            analyze.requires((objects,)),
        options.names ==> extract.requires(()),
        clock.requires(()),
    ensures
        final(s).trace().extends(old(s).trace()),
        forall|w: World| #[trigger]
            w.explains(final(s).trace()) ==> {
                let (objects, end) = objects_of(
                    w,
                    old(s).now(),
                    old(s).version(),
                    old(s).spec_ctx().spec_inner().uobjectarray,
                    *options,
                );
                end == final(s).now() && dumped(
                    old(s).spec_ctx(),
                    source_name@,
                    *options,
                    objects,
                    analyze,
                    extract,
                    clock,
                    r,
                )
            },
{
    match dump_objects(s, options) {
        Ok(objects) => assemble(s.ctx(), source_name, options, objects, analyze, extract, clock),
        Err(e) => Err(e),
    }
}

/// Where objects are left out, nothing is asked for them and there are none.
pub proof fn objects_can_be_left_out(
    w: World,
    t: nat,
    v: (u16, u16),
    array: u64,
    options: DumpOptions,
)
    requires
        array != 0,
        options.skip_objects,
    ensures
        objects_of(w, t, v, array, options) == (
            Ok::<Map<Seq<char>, ObjectTypeView>, ReadError>(Map::empty()),
            t,
        ),
{
    let found = Seq::<(Seq<char>, ObjectTypeView)>::empty();
    assert(gathered(found).finished() =~= Map::<Seq<char>, ObjectTypeView>::empty());
}

/// Whether the object at position `i` of the object array can be read and is that with its path, or
/// is left out.
pub open spec fn has_item(
    w: World,
    v: (u16, u16),
    array: u64,
    i: usize,
    all: bool,
    item: Option<(Seq<char>, ObjectTypeView)>,
) -> bool {
    exists|t: nat|
        (#[trigger] item_of(w, t, v, array, i, all)).0 == Ok::<_, ReadError>(item)
}

/// Whether `item` is an object with its path, or neither where it is not dumped.
pub open spec fn item_told(
    w: World,
    v: (u16, u16),
    obj: u64,
    all: bool,
    item: Option<(Seq<char>, ObjectTypeView)>,
) -> bool {
    exists|path: Seq<char>, of: Option<ObjectTypeView>|
        #![trigger crate::object_types::has_type(w, v, obj, path, all, of)]
        crate::paths::has_path(w, obj, path) && crate::object_types::has_type(
            w,
            v,
            obj,
            path,
            all,
            of,
        ) && item == match of {
            Some(object) => Some((path, object)),
            None => None,
        }
}

/// In a target that stands still an entry of the object array is an object with its path, whatever
/// its kind, where the object knows that it is at that position. It is nothing where there is no
/// object, or where that names another position or none.
pub proof fn entries_are_what_is_told(
    w: World,
    v: (u16, u16),
    array: u64,
    i: usize,
    all: bool,
    item: Option<(Seq<char>, ObjectTypeView)>,
)
    requires
        crate::paths::still(w),
        has_item(w, v, array, i, all, item),
    ensures
        match w.told_address(Query::ArrayItem { base: array, index: i }) {
            Some(obj) => if obj == 0 {
                item is None
            } else {
                match w.told_number(obj, NumberField::ObjectInternalIndex) {
                    Some(n) => if n as usize == i {
                        item_told(w, v, obj, all, item)
                    } else {
                        item is None
                    },
                    None => item is None,
                }
            },
            None => false,
        },
{
    reveal(item_of);
    let t = choose|t: nat|
        (#[trigger] item_of(w, t, v, array, i, all)).0 == Ok::<_, ReadError>(item);
    if let (Ok(Some(obj)), t1) = w.optional(t, Query::ArrayItem { base: array, index: i }) {
        if let (Ok(n), t2) = w.number(t1, obj, NumberField::ObjectInternalIndex) {
            if n as usize == i {
                let (path, t3) = crate::paths::path_of(w, t2, obj);
                assert(crate::paths::has_path(w, obj, path->Ok_0));
                let (of, _) = crate::object_types::object_type_of(
                    w,
                    t3,
                    v,
                    obj,
                    path->Ok_0,
                    all,
                );
                assert(crate::object_types::has_type(w, v, obj, path->Ok_0, all, of->Ok_0));
            }
        }
    }
}

/// Whether the first entries of the object array are those.
pub open spec fn has_items(
    w: World,
    v: (u16, u16),
    array: u64,
    all: bool,
    items: Seq<Option<(Seq<char>, ObjectTypeView)>>,
) -> bool {
    forall|i: int|
        0 <= i < items.len() ==> has_item(w, v, array, i as usize, all, #[trigger] items[i])
}

proof fn lemma_items_told(
    w: World,
    t: nat,
    v: (u16, u16),
    array: u64,
    n: usize,
    all: bool,
    items: Seq<Option<(Seq<char>, ObjectTypeView)>>,
) -> (r: Seq<Option<(Seq<char>, ObjectTypeView)>>)
    requires
        items.len() <= n,
        has_items(w, v, array, all, items),
    ensures
        ({
            let seen = crate::property_values::those_there(items);
            items_of(w, t, v, array, items.len() as usize, n, all, seen).0 matches Ok(found) ==> {
                &&& r.len() == n
                &&& has_items(w, v, array, all, r)
                &&& found == crate::property_values::those_there(r)
            }
        }),
    decreases n - items.len(),
{
    let i = items.len() as usize;
    if i >= n {
        items
    } else {
        match item_of(w, t, v, array, i, all) {
            (Ok(found), t1) => {
                assert(has_item(w, v, array, i, all, found));
                let more = items.push(found);
                assert(more.drop_last() =~= items);
                lemma_items_told(w, t1, v, array, n, all, more)
            },
            (Err(_), _) => items,
        }
    }
}

/// Whether the objects of a target can be read and are those by path.
pub open spec fn has_objects(
    w: World,
    v: (u16, u16),
    array: u64,
    options: DumpOptions,
    objects: Map<Seq<char>, ObjectTypeView>,
) -> bool {
    exists|t: nat|
        (#[trigger] objects_of(w, t, v, array, options)).0 == Ok::<_, ReadError>(objects)
}

/// The number of entries of an object array that are looked at.
pub open spec fn told_count(w: World, array: u64, options: DumpOptions) -> Option<usize> {
    if options.skip_objects {
        Some(0)
    } else {
        match w.told_number(array, NumberField::ArrayNumElements) {
            Some(n) => Some(n as usize),
            None => None,
        }
    }
}

/// Whether a dump holds what was found: an object under each path that was found and under no
/// other, with the paths of what was found to lie in it as its children. It is the first class with
/// the path by right, and the first object with it where none has it by right.
pub open spec fn holds_found(
    found: Seq<(Seq<char>, ObjectTypeView)>,
    objects: Map<Seq<char>, ObjectTypeView>,
) -> bool {
    &&& forall|path: Seq<char>| #[trigger]
        objects.dom().contains(path) <==> was_found(found, path)
    &&& forall|path: Seq<char>, child: Seq<char>|
        #![trigger objects[path].object().children.contains(child)]
        was_found(found, path) ==> (objects[path].object().children.contains(child)
            <==> found_within(found, path, child))
    &&& forall|path: Seq<char>, i: int| #[trigger]
        has_path_first(found, path, i) ==> with_children(objects[path], Set::empty())
            == found[i].1
}

/// Whether the object at position `i` is the one to which a path goes.
pub open spec fn has_path_first(
    found: Seq<(Seq<char>, ObjectTypeView)>,
    path: Seq<char>,
    i: int,
) -> bool {
    first_by_right(found, path, i) || first_by_chance(found, path, i)
}

/// An object whose children are replaced keeps all else, and has those children.
pub proof fn children_are_replaced(
    object: ObjectTypeView,
    a: Set<Seq<char>>,
    b: Set<Seq<char>>,
)
    ensures
        with_children(object, a).object() == (ObjectView { children: a, ..object.object() }),
        with_children(with_children(object, a), b) == with_children(object, b),
        with_children(object, object.object().children) == object,
        with_children(object, a) is Object <==> object is Object,
        with_children(object, a) is Package <==> object is Package,
        with_children(object, a) is Enum <==> object is Enum,
        with_children(object, a) is ScriptStruct <==> object is ScriptStruct,
        with_children(object, a) is Class <==> object is Class,
        with_children(object, a) is Function <==> object is Function,
{
}

proof fn lemma_holds_found(found: Seq<(Seq<char>, ObjectTypeView)>)
    requires
        forall|k: int|
            0 <= k < found.len() ==> (#[trigger] found[k]).1.object().children == Set::<
                Seq<char>,
            >::empty(),
    ensures
        holds_found(found, gathered(found).finished()),
{
    let g = gathered(found);
    let objects = g.finished();
    assert forall|path: Seq<char>| #[trigger]
        objects.dom().contains(path) <==> was_found(found, path) by {
        gathered_is_what_was_found(found, path);
    }
    assert forall|path: Seq<char>, child: Seq<char>|
        #![trigger objects[path].object().children.contains(child)]
        was_found(found, path) implies (objects[path].object().children.contains(child)
        <==> found_within(found, path, child)) by {
        finished_children_are_what_lies_within(found, path);
    }
    assert forall|path: Seq<char>, i: int| #[trigger]
        has_path_first(found, path, i) implies with_children(objects[path], Set::empty())
        == found[i].1 by {
        canonical_class_prevails(found, path, i);
        gathered_is_what_was_found(found, path);
        let none = Set::<Seq<char>>::empty();
        children_are_replaced(found[i].1, none, none);
        if g.children.dom().contains(path) {
            children_are_replaced(found[i].1, g.children[path], none);
        }
    }
}

/// In a target that stands still a dump holds exactly what the entries of its object array give:
/// each object that is not left out, of whatever kind, under its path.
pub proof fn dumps_hold_what_the_entries_give(
    w: World,
    v: (u16, u16),
    array: u64,
    options: DumpOptions,
    objects: Map<Seq<char>, ObjectTypeView>,
) -> (items: Seq<Option<(Seq<char>, ObjectTypeView)>>)
    requires
        crate::paths::still(w),
        has_objects(w, v, array, options, objects),
    ensures
        told_count(w, array, options) matches Some(n) && items.len() == n,
        has_items(w, v, array, options.all, items),
        holds_found(crate::property_values::those_there(items), objects),
{
    let t = choose|t: nat|
        (#[trigger] objects_of(w, t, v, array, options)).0 == Ok::<_, ReadError>(objects);
    let (n, t1) = item_count(w, t, array, options);
    let none = Seq::<Option<(Seq<char>, ObjectTypeView)>>::empty();
    assert(crate::property_values::those_there(none) =~= Seq::empty());
    let items = lemma_items_told(w, t1, v, array, n->Ok_0, options.all, none);
    lemma_found_without_children(w, t1, v, array, 0, n->Ok_0, options.all, Seq::empty());
    lemma_holds_found(crate::property_values::those_there(items));
    items
}

proof fn lemma_there(
    items: Seq<Option<(Seq<char>, ObjectTypeView)>>,
    x: (Seq<char>, ObjectTypeView),
)
    ensures
        crate::property_values::those_there(items).contains(x) <==> items.contains(Some(x)),
    decreases items.len(),
{
    if items.len() > 0 {
        let rest = items.drop_last();
        let found = crate::property_values::those_there(items);
        let before = crate::property_values::those_there(rest);
        lemma_there(rest, x);
        if before.contains(x) {
            let k = choose|k: int| 0 <= k < before.len() && before[k] == x;
            assert(found[k] == x);
        }
        if found.contains(x) && !before.contains(x) {
            let k = choose|k: int| 0 <= k < found.len() && found[k] == x;
            if k < before.len() {
                assert(before[k] == x);
            }
            assert(items[items.len() - 1] == Some(x));
        }
        if items.contains(Some(x)) {
            let k = choose|k: int| 0 <= k < items.len() && items[k] == Some(x);
            if k < rest.len() {
                assert(rest[k] == Some(x));
            } else {
                assert(found[found.len() - 1] == x);
            }
        }
        if rest.contains(Some(x)) {
            let k = choose|k: int| 0 <= k < rest.len() && rest[k] == Some(x);
            assert(items[k] == Some(x));
        }
    }
}

/// A dump of a target that stands still is complete: it has the path of each object in the object
/// array that knows its position there and is not left out, whatever its kind. An object that lies
/// in another one of them is listed among the children of that.
pub proof fn no_object_is_missing(
    w: World,
    v: (u16, u16),
    array: u64,
    options: DumpOptions,
    objects: Map<Seq<char>, ObjectTypeView>,
    i: usize,
    obj: u64,
    path: Seq<char>,
)
    requires
        crate::paths::still(w),
        has_objects(w, v, array, options, objects),
        told_count(w, array, options) matches Some(n) && i < n,
        w.told_address(Query::ArrayItem { base: array, index: i }) == Some(obj),
        obj != 0,
        w.told_number(obj, NumberField::ObjectInternalIndex) matches Some(n) && n as usize == i,
        crate::paths::has_path(w, obj, path),
        options.all || crate::object_types::is_native(path),
    ensures
        objects.dom().contains(path),
        exists|of: ObjectTypeView|
            #![trigger crate::object_types::has_type(w, v, obj, path, options.all, Some(of))]
            crate::object_types::has_type(w, v, obj, path, options.all, Some(of))
                && match of.object().outer {
                Some(outer) => objects.dom().contains(outer)
                    ==> objects[outer].object().children.contains(path),
                None => true,
            },
{
    let items = dumps_hold_what_the_entries_give(w, v, array, options, objects);
    let found = crate::property_values::those_there(items);
    let item = items[i as int];
    assert(has_item(w, v, array, i, options.all, item));
    entries_are_what_is_told(w, v, array, i, options.all, item);
    let (own, of) = choose|own: Seq<char>, of: Option<ObjectTypeView>|
        #![trigger crate::object_types::has_type(w, v, obj, own, options.all, of)]
        crate::paths::has_path(w, obj, own) && crate::object_types::has_type(
            w,
            v,
            obj,
            own,
            options.all,
            of,
        ) && item == match of {
            Some(object) => Some((own, object)),
            None => None,
        };
    crate::paths::paths_stay(w, obj, path, own);
    crate::object_types::dumped_objects_are_what_is_told(w, v, obj, path, options.all, of);
    let x = (path, of->0);
    assert(items.contains(Some(x)));
    lemma_there(items, x);
    let k = choose|k: int| 0 <= k < found.len() && found[k] == x;
    assert(found[k].0 == path);
    assert(was_found(found, path));
    assert(objects.dom().contains(path));
    if let Some(outer) = x.1.object().outer {
        assert(found_within(found, outer, path));
        if objects.dom().contains(outer) {
            assert(objects[outer].object().children.contains(path));
        }
    }
    assert(crate::object_types::has_type(w, v, obj, path, options.all, Some(x.1)));
}

/// A dump says what it is of: its metadata are those of the context, its objects are those that
/// were read unless vtables were looked for, and there are vtables and names just where they are
/// asked for. It fails only where names are asked for and cannot be had.
pub proof fn dumps_say_what_they_are_of<
    T,
    N,
    A: FnOnce(PathMap<ObjectType>) -> (PathMap<ObjectType>, Vec<T>),
    B: FnOnce() -> Result<N, ReadError>,
    C: FnOnce() -> String,
>(
    ctx: Ctx,
    source_name: Seq<char>,
    options: DumpOptions,
    objects: PathMap<ObjectType>,
    analyze: A,
    extract: B,
    clock: C,
    r: Result<Jmap<T, N>, ReadError>,
)
    requires
        assembled(ctx, source_name, options, objects, analyze, extract, clock, r),
    ensures
        r matches Ok(dump) ==> {
            &&& dump.image_base_address == ctx.spec_inner().image_base_address
            &&& dump.metadata matches Some(m) && {
                &&& m.source@ == source_name
                &&& (m.engine_version.major, m.engine_version.minor) == ctx.spec_inner().version
                &&& m.build_change_list == ctx.spec_inner().build_change_list
                &&& clock.ensures((), m.timestamp)
                &&& m.tool@ == "https://github.com/trumank/jmap"@
            }
            &&& options.skip_vtables ==> dump.objects == objects && dump.vtables@ == Seq::<
                T,
            >::empty()
            &&& !options.skip_vtables ==> analyze.ensures(
                (objects,),
                (dump.objects, dump.vtables),
            )
            &&& dump.names is Some <==> options.names
            &&& dump.names matches Some(names) ==> extract.ensures((), Ok(names))
        },
        r matches Err(e) ==> options.names && extract.ensures((), Err(e)),
{
}

/// A path belongs by right to a class whose default object has the same path, but for the name: it
/// is that of the class behind `Default__`, and a dot stands before it. No other object has a path
/// by right, and none that has no separator.
pub proof fn paths_belong_to_classes(
    outer: Seq<char>,
    separator: char,
    name: Seq<char>,
    object: ObjectTypeView,
)
    requires
        separator == '.' || separator == ':',
        !name.contains('.'),
        !name.contains(':'),
    ensures
        canonical(outer + seq![separator] + name, object) == match object {
            ObjectTypeView::Class(c) => c.class_default_object == Some(
                outer + seq!['.', 'D', 'e', 'f', 'a', 'u', 'l', 't', '_', '_'] + name,
            ),
            _ => false,
        },
        !canonical(name, object),
{
    let path = outer + seq![separator] + name;
    let n = outer.len() as int;
    reveal_strlit(".Default__");
    assert(".Default__"@ =~= seq!['.', 'D', 'e', 'f', 'a', 'u', 'l', 't', '_', '_']);
    crate::text::last_of_is_last(path, '.', ':', n);
    let i = crate::text::last_of(path, '.', ':');
    if i > n {
        assert(name[i - n - 1] == path[i]);
        assert(name.contains(path[i]));
    }
    assert(path.take(n) =~= outer);
    assert(path.skip(n + 1) =~= name);
    if crate::text::last_of(name, '.', ':') >= 0 {
        crate::text::last_of_stands_there(name, '.', ':');
        assert(name.contains(name[crate::text::last_of(name, '.', ':')]));
    }
}

proof fn lemma_item_read(w: World, t: nat, v: (u16, u16), array: u64, i: usize, all: bool)
    requires
        crate::session::answers_all(w),
        crate::property_types::fields_have_kinds(w),
    ensures
        crate::session::read_or_broken(w, item_of(w, t, v, array, i, all)),
{
    reveal(item_of);
    let query = Query::ArrayItem { base: array, index: i };
    if t < w.limit {
        assert((w.answers)(t, query) is Ok);
        if let (Ok(Some(obj)), t1) = w.optional(t, query) {
            crate::session::questions_are_answered(w, t1, obj);
            let a = w.number(t1, obj, NumberField::ObjectInternalIndex);
            assert(crate::session::read_or_ran_out(w, a));
            if let (Ok(n), t2) = a {
                crate::paths::paths_can_be_read(w, t2, obj);
                if let (Ok(path), t3) = crate::paths::path_of(w, t2, obj) {
                    crate::object_types::dumped_objects_can_be_read(w, t3, v, obj, path, all);
                }
            }
        }
    }
}

proof fn lemma_items_read(
    w: World,
    t: nat,
    v: (u16, u16),
    array: u64,
    i: usize,
    n: usize,
    all: bool,
    seen: Seq<(Seq<char>, ObjectTypeView)>,
)
    requires
        crate::session::answers_all(w),
        crate::property_types::fields_have_kinds(w),
    ensures
        crate::session::read_or_broken(w, items_of(w, t, v, array, i, n, all, seen)),
    decreases n - i,
{
    if i < n {
        lemma_item_read(w, t, v, array, i, all);
        if let (Ok(found), t1) = item_of(w, t, v, array, i, all) {
            let more = match found {
                Some(x) => seen.push(x),
                None => seen,
            };
            lemma_items_read(w, t1, v, array, (i + 1) as usize, n, all, more);
        }
    }
}

/// A target that answers all questions and has an object array is dumped, unless no more questions
/// may be asked or it holds what readers of values do not count on.
pub proof fn targets_can_be_dumped(
    w: World,
    t: nat,
    v: (u16, u16),
    array: u64,
    options: DumpOptions,
)
    requires
        crate::session::answers_all(w),
        crate::property_types::fields_have_kinds(w),
        array != 0,
    ensures
        crate::session::read_or_broken(w, objects_of(w, t, v, array, options)),
{
    crate::session::questions_are_answered(w, t, array);
    let a = w.number(t, array, NumberField::ArrayNumElements);
    assert(crate::session::read_or_ran_out(w, a));
    let b = item_count(w, t, array, options);
    if let (Ok(n), t1) = b {
        lemma_items_read(w, t1, v, array, 0, n, options.all, Seq::empty());
    }
}

} // verus!
