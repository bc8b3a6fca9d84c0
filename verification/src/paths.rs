//! The paths of objects.

use vstd::prelude::*;

use crate::mem::Ptr;
use crate::model::CastFlag;
use crate::objects::{UClass, UEnum, UFunction, UObject, UScriptStruct, UStruct};
use crate::session::{Engine, PointerField, Query, ReadError, Session, TextField, World};

verus! {

broadcast use crate::session::group_traces;

/// The addresses of an object and of all that it lies in, from the inside out, behind `seen`.
pub open spec fn chain_of(w: World, t: nat, obj: u64, seen: Seq<u64>) -> (
    Result<Seq<u64>, ReadError>,
    nat,
)
    decreases w.limit - t,
{
    match w.optional(t, Query::Pointer { base: obj, field: PointerField::ObjectOuter }) {
        (Ok(Some(outer)), t1) => chain_of(w, t1, outer, seen.push(obj)),
        (Ok(None), t1) => (Ok(seen.push(obj)), t1),
        (Err(e), t1) => (Err(e), t1),
    }
}

/// What stands between the name of an object and the name of what lies in it: a dot behind a
/// package, a colon behind anything else.
pub open spec fn separator_behind(w: World, t: nat, obj: u64) -> (
    Result<Seq<char>, ReadError>,
    nat,
) {
    match w.pointer(t, Query::Pointer { base: obj, field: PointerField::ObjectClass }) {
        (Ok(class), t1) => match w.cast_flags(t1, Query::ClassCastFlags { base: class }) {
            (Ok(f), t2) => (
                Ok(
                    if f.has(CastFlag::UPackage) {
                        seq!['.']
                    } else {
                        seq![':']
                    },
                ),
                t2,
            ),
            (Err(e), t2) => (Err(e), t2),
        },
        (Err(e), t1) => (Err(e), t1),
    }
}

/// `path` and the names of the first `k` objects of a chain, from the last of them to the first,
/// each behind its separator; there is none before the outermost object.
pub open spec fn spell(w: World, t: nat, chain: Seq<u64>, k: nat, path: Seq<char>) -> (
    Result<Seq<char>, ReadError>,
    nat,
)
    decreases k,
{
    if k == 0 {
        (Ok(path), t)
    } else {
        let before = if k < chain.len() {
            separator_behind(w, t, chain[k as int])
        } else {
            (Ok(Seq::empty()), t)
        };
        match before {
            (Ok(separator), t1) => match w.text(t1, chain[k - 1], TextField::ObjectName) {
                (Ok(name), t2) => spell(w, t2, chain, (k - 1) as nat, path + separator + name),
                (Err(e), t2) => (Err(e), t2),
            },
            (Err(e), t1) => (Err(e), t1),
        }
    }
}

/// The path of an object: the names of all that it lies in, from the outside in, then its own.
pub open spec fn path_of(w: World, t: nat, obj: u64) -> (Result<Seq<char>, ReadError>, nat) {
    match chain_of(w, t, obj, Seq::empty()) {
        (Ok(chain), t1) => spell(w, t1, chain, chain.len(), Seq::empty()),
        (Err(e), t1) => (Err(e), t1),
    }
}

/// The path of an object, if there is one.
pub open spec fn optional_path_of(w: World, t: nat, obj: Option<u64>) -> (
    Result<Option<Seq<char>>, ReadError>,
    nat,
) {
    match obj {
        Some(p) => match path_of(w, t, p) {
            (Ok(path), t1) => (Ok(Some(path)), t1),
            (Err(e), t1) => (Err(e), t1),
        },
        None => (Ok(None), t),
    }
}

fn read_chain<E: Engine>(s: &mut Session<E>, obj: &Ptr<UObject>) -> (r: Result<
    Vec<Ptr<UObject>>,
    ReadError,
>)
    ensures
        final(s).trace().extends(old(s).trace()),
        forall|w: World| #[trigger]
            w.explains(final(s).trace()) ==> chain_of(
                w,
                old(s).now(),
                obj.addr(),
                Seq::empty(),
            ) == (crate::session::outcome(r), final(s).now()),
{
    let mut objects: Vec<Ptr<UObject>> = Vec::new();
    let mut cur = obj.clone();
    let ghost start = s.now();
    assert(objects.deep_view() =~= Seq::<u64>::empty());
    loop
        invariant
            start == old(s).now(),
            s.trace().extends(old(s).trace()),
            forall|w: World| #[trigger]
                w.explains(s.trace()) ==> chain_of(w, start, obj.addr(), Seq::empty()) == chain_of(
                    w,
                    s.now(),
                    cur.addr(),
                    objects.deep_view(),
                ),
        decreases s.spec_left(),
    {
        let outer = s.optional::<UObject, UObject>(
            &cur,
            Query::Pointer { base: cur.address(), field: PointerField::ObjectOuter },
        );
        let ghost seen = objects.deep_view();
        match outer {
            Ok(Some(outer)) => {
                objects.push(cur);
                assert(objects.deep_view() =~= seen.push(cur.addr()));
                cur = outer;
            },
            Ok(None) => {
                objects.push(cur);
                assert(objects.deep_view() =~= seen.push(cur.addr()));
                return Ok(objects);
            },
            Err(e) => {
                return Err(e);
            },
        }
    }
}

fn read_separator<E: Engine>(s: &mut Session<E>, obj: &Ptr<UObject>) -> (r: Result<
    &'static str,
    ReadError,
>)
    ensures
        final(s).trace().extends(old(s).trace()),
        forall|w: World| #[trigger]
            w.explains(final(s).trace()) ==> separator_behind(w, old(s).now(), obj.addr()) == (
                crate::session::outcome(r),
                final(s).now(),
            ),
{
    let class = s.pointer::<UObject, UClass>(
        obj,
        Query::Pointer { base: obj.address(), field: PointerField::ObjectClass },
    );
    let class = match class {
        Ok(class) => class,
        Err(e) => {
            return Err(e);
        },
    };
    match s.cast_flags(Query::ClassCastFlags { base: class.address() }) {
        Ok(f) => {
            proof {
                reveal_strlit(".");
                reveal_strlit(":");
                assert("."@ =~= seq!['.']);
                assert(":"@ =~= seq![':']);
            }
            if f.contains(CastFlag::UPackage) {
                Ok(".")
            } else {
                Ok(":")
            }
        },
        Err(e) => Err(e),
    }
}

/// Reads the path of an object.
pub fn read_path<E: Engine>(s: &mut Session<E>, obj: &Ptr<UObject>) -> (r: Result<
    String,
    ReadError,
>)
    ensures
        final(s).trace().extends(old(s).trace()),
        forall|w: World| #[trigger]
            w.explains(final(s).trace()) ==> path_of(w, old(s).now(), obj.addr()) == (
                crate::session::outcome(r),
                final(s).now(),
            ),
{
    let objects = match read_chain(s, obj) {
        Ok(objects) => objects,
        Err(e) => {
            return Err(e);
        },
    };
    let ghost chain = objects.deep_view();
    let ghost start = s.now();
    let ghost t0 = s.trace();
    let mut path = String::new();
    let mut k: usize = objects.len();
    while k > 0
        invariant
            start == t0.now(),
            chain == objects.deep_view(),
            k <= chain.len(),
            t0.extends(old(s).trace()),
            s.trace().extends(t0),
            forall|w: World| #[trigger]
                w.explains(t0) ==> chain_of(w, old(s).now(), obj.addr(), Seq::empty()) == (
                    Ok::<Seq<u64>, ReadError>(chain),
                    start,
                ),
            forall|w: World| #[trigger]
                w.explains(s.trace()) ==> spell(w, start, chain, chain.len(), Seq::empty())
                    == spell(w, s.now(), chain, k as nat, path@),
        decreases k,
    {
        let ghost before = path@;
        let ghost mut sep: Seq<char> = Seq::empty();
        if k < objects.len() {
            match read_separator(s, &objects[k]) {
                Ok(separator) => {
                    proof {
                        sep = separator@;
                    }
                    path.append(separator);
                },
                Err(e) => {
                    return Err(e);
                },
            }
        }
        assert(path@ =~= before + sep);
        match s.text(objects[k - 1].address(), TextField::ObjectName) {
            Ok(name) => {
                path.append(name.as_str());
            },
            Err(e) => {
                return Err(e);
            },
        }
        k = k - 1;
    }
    Ok(path)
}

/// What has a path.
pub trait HasPath {
    /// The address of the object.
    spec fn place(&self) -> u64;

    /// Reads the path.
    fn path<E: Engine>(&self, s: &mut Session<E>) -> (r: Result<String, ReadError>)
        ensures
            final(s).trace().extends(old(s).trace()),
            forall|w: World| #[trigger]
                w.explains(final(s).trace()) ==> path_of(w, old(s).now(), self.place()) == (
                    crate::session::outcome(r),
                    final(s).now(),
                ),
    ;
}

impl HasPath for Ptr<UObject> {
    open spec fn place(&self) -> u64 {
        self.addr()
    }

    fn path<E: Engine>(&self, s: &mut Session<E>) -> (r: Result<String, ReadError>) {
        read_path(s, &self.cast())
    }
}

impl HasPath for Ptr<UClass> {
    open spec fn place(&self) -> u64 {
        self.addr()
    }

    fn path<E: Engine>(&self, s: &mut Session<E>) -> (r: Result<String, ReadError>) {
        read_path(s, &self.cast())
    }
}

impl HasPath for Ptr<UStruct> {
    open spec fn place(&self) -> u64 {
        self.addr()
    }

    fn path<E: Engine>(&self, s: &mut Session<E>) -> (r: Result<String, ReadError>) {
        read_path(s, &self.cast())
    }
}

impl HasPath for Ptr<UScriptStruct> {
    open spec fn place(&self) -> u64 {
        self.addr()
    }

    fn path<E: Engine>(&self, s: &mut Session<E>) -> (r: Result<String, ReadError>) {
        read_path(s, &self.cast())
    }
}

impl HasPath for Ptr<UFunction> {
    open spec fn place(&self) -> u64 {
        self.addr()
    }

    fn path<E: Engine>(&self, s: &mut Session<E>) -> (r: Result<String, ReadError>) {
        read_path(s, &self.cast())
    }
}

impl HasPath for Ptr<UEnum> {
    open spec fn place(&self) -> u64 {
        self.addr()
    }

    fn path<E: Engine>(&self, s: &mut Session<E>) -> (r: Result<String, ReadError>) {
        read_path(s, &self.cast())
    }
}

/// Reads the path of an object, if there is one.
pub fn opt_path<T, E: Engine>(s: &mut Session<E>, opt: Option<Ptr<T>>) -> (r: Result<
    Option<String>,
    ReadError,
>) where Ptr<T>: HasPath
    ensures
        final(s).trace().extends(old(s).trace()),
        forall|w: World| #[trigger]
            w.explains(final(s).trace()) ==> optional_path_of(
                w,
                old(s).now(),
                match opt {
                    Some(p) => Some(p.place()),
                    None => None,
                },
            ) == (crate::session::outcome(r), final(s).now()),
{
    match opt {
        Some(p) => match p.path(s) {
            Ok(path) => Ok(Some(path)),
            Err(e) => Err(e),
        },
        None => Ok(None),
    }
}

/// Whether a target stands still: it answers the same question always alike.
pub open spec fn still(w: World) -> bool {
    forall|a: nat, b: nat, query: Query|
        #![trigger (w.answers)(a, query), (w.answers)(b, query)]
        (w.answers)(a, query) == (w.answers)(b, query)
}

proof fn lemma_chain_begins(w: World, t: nat, obj: u64, seen: Seq<u64>)
    requires
        chain_of(w, t, obj, seen).0 is Ok,
    ensures
        chain_of(w, t, obj, seen).0->Ok_0.len() > seen.len(),
        chain_of(w, t, obj, seen).0->Ok_0.take(seen.len() as int) == seen,
        chain_of(w, t, obj, seen).0->Ok_0[seen.len() as int] == obj,
    decreases w.limit - t,
{
    let n = seen.len() as int;
    let query = Query::Pointer { base: obj, field: PointerField::ObjectOuter };
    let c = chain_of(w, t, obj, seen).0->Ok_0;
    if let (Ok(Some(outer)), t1) = w.optional(t, query) {
        lemma_chain_begins(w, t1, outer, seen.push(obj));
        assert(c.take(n + 1) == seen.push(obj));
        assert(c.take(n) =~= c.take(n + 1).take(n));
        assert(seen.push(obj).take(n) =~= seen);
        assert(c[n] == c.take(n + 1)[n]);
    } else {
        assert(c.take(n) =~= seen);
    }
}

proof fn lemma_chain_alike(w: World, t: nat, u: nat, obj: u64, seen: Seq<u64>, other: Seq<u64>)
    requires
        still(w),
        chain_of(w, t, obj, seen).0 is Ok,
        chain_of(w, u, obj, other).0 is Ok,
    ensures
        chain_of(w, t, obj, seen).0->Ok_0.skip(seen.len() as int) == chain_of(
            w,
            u,
            obj,
            other,
        ).0->Ok_0.skip(other.len() as int),
    decreases w.limit - t,
{
    let n = seen.len() as int;
    let m = other.len() as int;
    let query = Query::Pointer { base: obj, field: PointerField::ObjectOuter };
    assert((w.answers)(t, query) == (w.answers)(u, query));
    let c = chain_of(w, t, obj, seen).0->Ok_0;
    let d = chain_of(w, u, obj, other).0->Ok_0;
    lemma_chain_begins(w, t, obj, seen);
    lemma_chain_begins(w, u, obj, other);
    if let (Ok(Some(outer)), t1) = w.optional(t, query) {
        let u1 = w.optional(u, query).1;
        lemma_chain_alike(w, t1, u1, outer, seen.push(obj), other.push(obj));
        assert(c.skip(n) =~= seq![obj] + c.skip(n + 1));
        assert(d.skip(m) =~= seq![obj] + d.skip(m + 1));
    } else {
        assert(c.skip(n) =~= seq![obj]);
        assert(d.skip(m) =~= seq![obj]);
    }
}

/// Whether `path` is that of what lies in `outer` and has the name of `obj`, where `outer` has
/// `outer_path`.
pub open spec fn goes_through(
    w: World,
    outer_path: Seq<char>,
    outer: u64,
    obj: u64,
    path: Seq<char>,
) -> bool {
    exists|a: nat, b: nat|
        #![trigger separator_behind(w, a, outer), w.text(b, obj, TextField::ObjectName)]
        separator_behind(w, a, outer).0 is Ok && w.text(b, obj, TextField::ObjectName).0 is Ok
            && path == outer_path + separator_behind(w, a, outer).0->Ok_0 + w.text(
            b,
            obj,
            TextField::ObjectName,
        ).0->Ok_0
}

proof fn lemma_separator_alike(w: World, t: nat, u: nat, obj: u64)
    requires
        still(w),
        separator_behind(w, t, obj).0 is Ok,
        separator_behind(w, u, obj).0 is Ok,
    ensures
        separator_behind(w, t, obj).0 == separator_behind(w, u, obj).0,
{
    let query = Query::Pointer { base: obj, field: PointerField::ObjectClass };
    assert((w.answers)(t, query) == (w.answers)(u, query));
    let class = w.pointer(t, query).0->Ok_0;
    let t1 = w.pointer(t, query).1;
    let u1 = w.pointer(u, query).1;
    let flags = Query::ClassCastFlags { base: class };
    assert((w.answers)(t1, flags) == (w.answers)(u1, flags));
}

proof fn lemma_spell_through(
    w: World,
    t: nat,
    u: nat,
    chain: Seq<u64>,
    k: nat,
    path: Seq<char>,
)
    requires
        still(w),
        chain.len() >= 2,
        k < chain.len(),
        spell(w, t, chain, k + 1, path).0 is Ok,
        spell(w, u, chain.skip(1), k, path).0 is Ok,
    ensures
        goes_through(
            w,
            spell(w, u, chain.skip(1), k, path).0->Ok_0,
            chain[1],
            chain[0],
            spell(w, t, chain, k + 1, path).0->Ok_0,
        ),
    decreases k,
{
    let rest = chain.skip(1);
    if k == 0 {
        let a = separator_behind(w, t, chain[1]);
        let b = w.text(a.1, chain[0], TextField::ObjectName);
        let whole = path + a.0->Ok_0 + b.0->Ok_0;
        assert(spell(w, b.1, chain, 0, whole).0 == Ok::<Seq<char>, ReadError>(whole));
        assert(spell(w, t, chain, 1, path) == spell(w, b.1, chain, 0, whole));
    } else {
        let a = if k + 1 < chain.len() {
            separator_behind(w, t, chain[(k + 1) as int])
        } else {
            (Ok(Seq::empty()), t)
        };
        let b = if k < rest.len() {
            separator_behind(w, u, rest[k as int])
        } else {
            (Ok(Seq::empty()), u)
        };
        if k + 1 < chain.len() {
            assert(rest[k as int] == chain[(k + 1) as int]);
            lemma_separator_alike(w, t, u, chain[(k + 1) as int]);
        }
        let query = Query::Text { base: chain[k as int], field: TextField::ObjectName };
        assert(rest[k - 1] == chain[k as int]);
        assert((w.answers)(a.1, query) == (w.answers)(b.1, query));
        let x = w.text(a.1, chain[k as int], TextField::ObjectName);
        let y = w.text(b.1, chain[k as int], TextField::ObjectName);
        lemma_spell_through(
            w,
            x.1,
            y.1,
            chain,
            (k - 1) as nat,
            path + a.0->Ok_0 + x.0->Ok_0,
        );
    }
}

/// Paths nest: in a target that stands still, the path of an object is the path of what it lies
/// in, then the separator behind that, then the name of the object.
pub proof fn path_goes_through_outer(w: World, t: nat, u: nat, obj: u64, outer: u64)
    requires
        still(w),
        w.optional(t, Query::Pointer { base: obj, field: PointerField::ObjectOuter }).0 == Ok::<
            Option<u64>,
            ReadError,
        >(Some(outer)),
        path_of(w, t, obj).0 is Ok,
        path_of(w, u, outer).0 is Ok,
    ensures
        goes_through(
            w,
            path_of(w, u, outer).0->Ok_0,
            outer,
            obj,
            path_of(w, t, obj).0->Ok_0,
        ),
{
    let query = Query::Pointer { base: obj, field: PointerField::ObjectOuter };
    let t1 = w.optional(t, query).1;
    let none = Seq::<u64>::empty();
    lemma_chain_alike(w, t1, u, outer, none.push(obj), none);
    lemma_chain_begins(w, t1, outer, none.push(obj));
    lemma_chain_begins(w, u, outer, none);
    let chain = chain_of(w, t, obj, none).0->Ok_0;
    let rest = chain_of(w, u, outer, none).0->Ok_0;
    assert(chain.skip(1) =~= rest) by {
        assert(none.push(obj).len() == 1);
        assert(rest.skip(0) =~= rest);
    }
    assert(chain[0] == chain.take(1)[0]);
    assert(chain[1] == chain.skip(1)[0]);
    lemma_spell_through(
        w,
        chain_of(w, t, obj, none).1,
        chain_of(w, u, outer, none).1,
        chain,
        rest.len(),
        Seq::empty(),
    );
}

/// Whether the path of an object can be read and is that one.
pub open spec fn has_path(w: World, obj: u64, path: Seq<char>) -> bool {
    exists|t: nat| (#[trigger] path_of(w, t, obj)).0 == Ok::<Seq<char>, ReadError>(path)
}

/// Whether `path` consists of the path of `outer`, a separator and the name of `obj`. The separator
/// is a dot where the class of `outer` is one of packages, and a colon where it is not.
pub open spec fn path_within(
    w: World,
    outer_path: Seq<char>,
    outer: u64,
    obj: u64,
    path: Seq<char>,
) -> bool {
    let n = outer_path.len() as int;
    &&& path.len() > n
    &&& path.take(n) == outer_path
    &&& w.told_kinds(outer) matches Some(kinds) && {
        &&& path[n] == '.' <==> kinds.contains(CastFlag::UPackage)
        &&& path[n] == ':' <==> !kinds.contains(CastFlag::UPackage)
    }
    &&& w.told_text(obj, TextField::ObjectName) == Some(path.skip(n + 1))
}

proof fn lemma_spell_within(w: World, t: nat, chain: Seq<u64>, k: nat, path: Seq<char>)
    requires
        still(w),
        chain.len() >= 2,
        k < chain.len(),
        spell(w, t, chain, k + 1, path).0 is Ok,
    ensures
        spell(w, t, chain.skip(1), k, path).0 is Ok,
        path_within(
            w,
            spell(w, t, chain.skip(1), k, path).0->Ok_0,
            chain[1],
            chain[0],
            spell(w, t, chain, k + 1, path).0->Ok_0,
        ),
    decreases k,
{
    let rest = chain.skip(1);
    if k == 0 {
        let a = separator_behind(w, t, chain[1]);
        let b = w.text(a.1, chain[0], TextField::ObjectName);
        let whole = path + a.0->Ok_0 + b.0->Ok_0;
        assert(spell(w, b.1, chain, 0, whole).0 == Ok::<Seq<char>, ReadError>(whole));
        assert(spell(w, t, chain, 1, path) == spell(w, b.1, chain, 0, whole));
        assert(whole.take(path.len() as int) =~= path);
        assert(whole.skip((path.len() + 1) as int) =~= b.0->Ok_0);
    } else {
        let a = if k + 1 < chain.len() {
            separator_behind(w, t, chain[(k + 1) as int])
        } else {
            (Ok(Seq::empty()), t)
        };
        assert(k + 1 < chain.len() ==> rest[k as int] == chain[(k + 1) as int]);
        assert(rest[k - 1] == chain[k as int]);
        let x = w.text(a.1, chain[k as int], TextField::ObjectName);
        lemma_spell_within(w, x.1, chain, (k - 1) as nat, path + a.0->Ok_0 + x.0->Ok_0);
    }
}

proof fn lemma_chain_from(w: World, t: nat, obj: u64, seen: Seq<u64>, more: Seq<u64>)
    ensures
        chain_of(w, t, obj, seen).1 == chain_of(w, t, obj, more).1,
        match (chain_of(w, t, obj, seen).0, chain_of(w, t, obj, more).0) {
            (Ok(a), Ok(b)) => a.len() >= seen.len() && b.len() >= more.len() && a.skip(
                seen.len() as int,
            ) == b.skip(more.len() as int),
            (Err(a), Err(b)) => a == b,
            _ => false,
        },
    decreases w.limit - t,
{
    let query = Query::Pointer { base: obj, field: PointerField::ObjectOuter };
    match w.optional(t, query) {
        (Ok(Some(outer)), t1) => {
            lemma_chain_from(w, t1, outer, seen.push(obj), more.push(obj));
            if let Ok(a) = chain_of(w, t, obj, seen).0 {
                let b = chain_of(w, t, obj, more).0->Ok_0;
                lemma_chain_begins(w, t, obj, seen);
                lemma_chain_begins(w, t, obj, more);
                let n = seen.len() as int;
                let m = more.len() as int;
                assert(a.skip(n) =~= seq![obj] + a.skip(n + 1));
                assert(b.skip(m) =~= seq![obj] + b.skip(m + 1));
            }
        },
        (Ok(None), _) => {
            assert(seen.push(obj).skip(seen.len() as int) =~= seq![obj]);
            assert(more.push(obj).skip(more.len() as int) =~= seq![obj]);
        },
        (Err(_), _) => {},
    }
}

/// In a target that stands still, the path of an object that lies in nothing is its name. That of
/// one that lies in another is the path of the other, a separator and the name of the object: a
/// dot behind a package, and a colon behind anything else.
pub proof fn paths_lead_from_the_outside_in(w: World, obj: u64, path: Seq<char>)
    requires
        still(w),
        has_path(w, obj, path),
    ensures
        match w.told_slot(obj, PointerField::ObjectOuter) {
            Some(outer) => if outer == 0 {
                w.told_text(obj, TextField::ObjectName) == Some(path)
            } else {
                exists|outer_path: Seq<char>| #[trigger]
                    has_path(w, outer, outer_path) && path_within(w, outer_path, outer, obj, path)
            },
            None => false,
        },
{
    let t = choose|t: nat| (#[trigger] path_of(w, t, obj)).0 == Ok::<Seq<char>, ReadError>(path);
    let query = Query::Pointer { base: obj, field: PointerField::ObjectOuter };
    let none = Seq::<u64>::empty();
    let chain = chain_of(w, t, obj, none).0->Ok_0;
    let t1 = chain_of(w, t, obj, none).1;
    let outer = w.told_slot(obj, PointerField::ObjectOuter)->0;
    lemma_chain_begins(w, t, obj, none);
    if outer == 0 {
        assert(chain =~= seq![obj]);
        let x = w.text(t1, obj, TextField::ObjectName);
        let name = x.0->Ok_0;
        assert(Seq::<char>::empty() + Seq::<char>::empty() + name =~= name);
        assert(spell(w, x.1, chain, 0, name).0 == Ok::<Seq<char>, ReadError>(name));
    } else {
        let u = w.optional(t, query).1;
        lemma_chain_from(w, u, outer, none.push(obj), none);
        lemma_chain_begins(w, u, outer, none);
        let rest = chain_of(w, u, outer, none).0->Ok_0;
        assert(rest.skip(0) =~= rest);
        assert(chain.skip(1) =~= rest);
        assert(chain[1] == chain.skip(1)[0]);
        lemma_spell_within(w, t1, chain, rest.len(), Seq::empty());
        let outer_path = path_of(w, u, outer).0->Ok_0;
        assert(has_path(w, outer, outer_path));
    }
}

/// In a target that stands still an object has one path, whenever it is read.
pub proof fn paths_stay(w: World, obj: u64, a: Seq<char>, b: Seq<char>)
    requires
        still(w),
        has_path(w, obj, a),
        has_path(w, obj, b),
    ensures
        a == b,
{
    let t = choose|t: nat| (#[trigger] path_of(w, t, obj)).0 == Ok::<Seq<char>, ReadError>(a);
    let u = choose|u: nat| (#[trigger] path_of(w, u, obj)).0 == Ok::<Seq<char>, ReadError>(b);
    let none = Seq::<u64>::empty();
    lemma_chain_alike(w, t, u, obj, none, none);
    let c = chain_of(w, t, obj, none).0->Ok_0;
    let d = chain_of(w, u, obj, none).0->Ok_0;
    assert(c.skip(0) =~= c);
    assert(d.skip(0) =~= d);
    let t1 = chain_of(w, t, obj, none).1;
    let u1 = chain_of(w, u, obj, none).1;
    lemma_spell_alike(w, t1, u1, c, c.len(), Seq::empty());
}

proof fn lemma_spell_alike(w: World, t: nat, u: nat, chain: Seq<u64>, k: nat, path: Seq<char>)
    requires
        still(w),
        spell(w, t, chain, k, path).0 is Ok,
        spell(w, u, chain, k, path).0 is Ok,
    ensures
        spell(w, t, chain, k, path).0 == spell(w, u, chain, k, path).0,
    decreases k,
{
    if k > 0 {
        let a = if k < chain.len() {
            separator_behind(w, t, chain[k as int])
        } else {
            (Ok(Seq::empty()), t)
        };
        let b = if k < chain.len() {
            separator_behind(w, u, chain[k as int])
        } else {
            (Ok(Seq::empty()), u)
        };
        if k < chain.len() {
            lemma_separator_alike(w, t, u, chain[k as int]);
        }
        let query = Query::Text { base: chain[k - 1], field: TextField::ObjectName };
        assert((w.answers)(a.1, query) == (w.answers)(b.1, query));
        let x = w.text(a.1, chain[k - 1], TextField::ObjectName);
        let y = w.text(b.1, chain[k - 1], TextField::ObjectName);
        lemma_spell_alike(w, x.1, y.1, chain, (k - 1) as nat, path + a.0->Ok_0 + x.0->Ok_0);
    }
}

proof fn lemma_chain_read(w: World, t: nat, obj: u64, seen: Seq<u64>)
    requires
        crate::session::answers_all(w),
    ensures
        crate::session::read_or_ran_out(w, chain_of(w, t, obj, seen)),
    decreases w.limit - t,
{
    let query = Query::Pointer { base: obj, field: PointerField::ObjectOuter };
    if t < w.limit {
        assert((w.answers)(t, query) is Ok);
        if let (Ok(Some(outer)), t1) = w.optional(t, query) {
            lemma_chain_read(w, t1, outer, seen.push(obj));
        }
    }
}

proof fn lemma_spell_read(w: World, t: nat, chain: Seq<u64>, k: nat, path: Seq<char>)
    requires
        crate::session::answers_all(w),
    ensures
        crate::session::read_or_ran_out(w, spell(w, t, chain, k, path)),
    decreases k,
{
    if k > 0 {
        let before = if k < chain.len() {
            separator_behind(w, t, chain[k as int])
        } else {
            (Ok(Seq::empty()), t)
        };
        if k < chain.len() {
            crate::session::questions_are_answered(w, t, chain[k as int]);
            let class = w.pointer(
                t,
                Query::Pointer { base: chain[k as int], field: PointerField::ObjectClass },
            );
            assert(crate::session::read_or_ran_out(w, class));
            crate::session::questions_are_answered(w, class.1, class.0->Ok_0);
        }
        crate::session::questions_are_answered(w, before.1, chain[k - 1]);
        let name = w.text(before.1, chain[k - 1], TextField::ObjectName);
        assert(crate::session::read_or_ran_out(w, name));
        lemma_spell_read(
            w,
            name.1,
            chain,
            (k - 1) as nat,
            path + before.0->Ok_0 + name.0->Ok_0,
        );
    }
}

/// The path of an object of a target that answers all questions is read, however deep the object
/// lies, unless no more questions may be asked.
pub proof fn paths_can_be_read(w: World, t: nat, obj: u64)
    requires
        crate::session::answers_all(w),
    ensures
        crate::session::read_or_ran_out(w, path_of(w, t, obj)),
        crate::session::read_or_ran_out(w, optional_path_of(w, t, Some(obj))),
        optional_path_of(w, t, None).0 == Ok::<Option<Seq<char>>, ReadError>(None),
{
    lemma_chain_read(w, t, obj, Seq::empty());
    if let (Ok(chain), t1) = chain_of(w, t, obj, Seq::empty()) {
        lemma_spell_read(w, t1, chain, chain.len(), Seq::empty());
    }
}

} // verus!
