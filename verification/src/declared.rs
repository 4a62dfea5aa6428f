use crate::dep::{DeclaredDep, DepKind};
use vstd::prelude::*;

verus! {

/// One name of the manifest with the kinds it is declared under, in the order
/// in which they were met.
#[derive(Debug)]
pub struct DeclaredKinds {
    pub name: String,
    pub kinds: Vec<DepKind>,
}

/// For each dependency that the root manifest names, the kinds under which it
/// names it.
#[derive(Debug)]
pub struct DeclaredDepsMap {
    entries: Vec<DeclaredKinds>,
}

/// Whether `i` is the first entry for `name`.
pub open spec fn first_entry(entries: Seq<DeclaredKinds>, name: Seq<char>, i: int) -> bool {
    &&& 0 <= i < entries.len()
    &&& entries[i].name@ == name
    &&& forall|j: int| 0 <= j < i ==> (#[trigger] entries[j]).name@ != name
}

/// Whether the manifest declares `name` under `kind`.
pub open spec fn declares(
    declared: Map<Seq<char>, Seq<DepKind>>,
    name: Seq<char>,
    kind: DepKind,
) -> bool {
    declared.contains_key(name) && declared[name].contains(kind)
}

/// The kind that the manifest gives `name` where it gives several: the first
/// of regular, build, dev, optional that it declares; `Unknown` where it
/// declares none of them or does not name `name` at all.
pub open spec fn declared_kind(declared: Map<Seq<char>, Seq<DepKind>>, name: Seq<char>) -> DepKind {
    if declares(declared, name, DepKind::Regular) {
        DepKind::Regular
    } else if declares(declared, name, DepKind::Build) {
        DepKind::Build
    } else if declares(declared, name, DepKind::Dev) {
        DepKind::Dev
    } else if declares(declared, name, DepKind::Optional) {
        DepKind::Optional
    } else {
        DepKind::Unknown
    }
}

/// A list of declared dependencies as plain values.
pub open spec fn dep_views(deps: Seq<DeclaredDep>) -> Seq<(Seq<char>, DepKind)> {
    Seq::new(deps.len(), |i: int| (deps[i].name@, deps[i].kind))
}

/// The map after one more declaration: the kind joins those of its name.
pub open spec fn declare(
    declared: Map<Seq<char>, Seq<DepKind>>,
    name: Seq<char>,
    kind: DepKind,
) -> Map<Seq<char>, Seq<DepKind>> {
    if declared.contains_key(name) {
        declared.insert(name, declared[name].push(kind))
    } else {
        declared.insert(name, seq![kind])
    }
}

/// The map that a list of declarations makes, taken in order.
pub open spec fn declared_map(deps: Seq<(Seq<char>, DepKind)>) -> Map<Seq<char>, Seq<DepKind>>
    decreases deps.len(),
{
    if deps.len() == 0 {
        Map::empty()
    } else {
        declare(declared_map(deps.drop_last()), deps.last().0, deps.last().1)
    }
}

impl View for DeclaredDepsMap {
    type V = Map<Seq<char>, Seq<DepKind>>;

    closed spec fn view(&self) -> Map<Seq<char>, Seq<DepKind>> {
        Map::new(
            |name: Seq<char>| exists|i: int| first_entry(self.entries@, name, i),
            |name: Seq<char>| self.entries@[choose|i: int| first_entry(self.entries@, name, i)].kinds@,
        )
    }
}

impl DeclaredDepsMap {
    /// A map without a declaration.
    pub fn new() -> (map: Self)
        ensures
            map@ == Map::<Seq<char>, Seq<DepKind>>::empty(),
    {
        let map = DeclaredDepsMap { entries: Vec::new() };
        assert(map@ =~= Map::<Seq<char>, Seq<DepKind>>::empty());
        map
    }

    fn position(&self, name: &String) -> (r: Option<usize>)
        ensures
            match r {
                Some(i) => first_entry(self.entries@, name@, i as int),
                None => forall|i: int|
                    0 <= i < self.entries@.len() ==> (#[trigger] self.entries@[i]).name@ != name@,
            },
    {
        let mut i: usize = 0;
        while i < self.entries.len()
            invariant
                i <= self.entries.len(),
                forall|j: int| 0 <= j < i ==> (#[trigger] self.entries@[j]).name@ != name@,
            decreases self.entries.len() - i,
        {
            if self.entries[i].name == *name {
                return Some(i);
            }
            i += 1;
        }
        None
    }

    /// The kinds under which `name` is declared, if it is declared at all.
    pub fn get(&self, name: &str) -> (r: Option<&Vec<DepKind>>)
        ensures
            match r {
                Some(kinds) => self@.contains_key(name@) && kinds@ == self@[name@],
                None => !self@.contains_key(name@),
            },
    {
        let owned = name.to_owned();
        match self.position(&owned) {
            Some(i) => {
                assert(first_entry(self.entries@, name@, i as int));
                Some(&self.entries[i].kinds)
            },
            None => {
                assert forall|k: int| !first_entry(self.entries@, name@, k) by {
                    if 0 <= k < self.entries@.len() {
                        assert(self.entries@[k].name@ != name@);
                    }
                }
                None
            },
        }
    }

    /// Records that `name` is declared under `kind`.
    pub fn add(&mut self, name: String, kind: DepKind)
        ensures
            final(self)@ == declare(old(self)@, name@, kind),
    {
        match self.position(&name) {
            Some(i) => {
                assert(first_entry(self.entries@, name@, i as int));
                let mut entry = self.entries.remove(i);
                entry.kinds.push(kind);
                self.entries.insert(i, entry);
                assert forall|n: Seq<char>, k: int|
                    first_entry(self.entries@, n, k) == first_entry(old(self).entries@, n, k) by {
                    assert(forall|j: int|
                        0 <= j < self.entries@.len() ==> (#[trigger] self.entries@[j]).name@ == old(
                            self,
                        ).entries@[j].name@);
                    if first_entry(self.entries@, n, k) {
                        assert forall|j: int| 0 <= j < k implies (#[trigger] old(
                            self,
                        ).entries@[j]).name@ != n by {
                            assert(self.entries@[j].name@ != n);
                        }
                    }
                    if first_entry(old(self).entries@, n, k) {
                        assert forall|j: int| 0 <= j < k implies (#[trigger] self.entries@[j]).name@
                            != n by {
                            assert(old(self).entries@[j].name@ != n);
                        }
                    }
                }
                assert(self@ =~= declare(old(self)@, name@, kind));
            },
            None => {
                let mut kinds: Vec<DepKind> = Vec::new();
                kinds.push(kind);
                self.entries.push(DeclaredKinds { name, kinds });
                let ghost last = old(self).entries@.len() as int;
                assert(first_entry(self.entries@, name@, last)) by {
                    assert forall|j: int| 0 <= j < last implies (#[trigger] self.entries@[j]).name@
                        != name@ by {
                        assert(old(self).entries@[j].name@ != name@);
                    }
                }
                assert forall|k: int| !first_entry(old(self).entries@, name@, k) by {
                    if 0 <= k < old(self).entries@.len() {
                        assert(old(self).entries@[k].name@ != name@);
                    }
                }
                assert forall|n: Seq<char>, k: int| n != name@ implies first_entry(
                    self.entries@,
                    n,
                    k,
                ) == first_entry(old(self).entries@, n, k) by {
                    if first_entry(self.entries@, n, k) {
                        assert forall|j: int| 0 <= j < k implies (#[trigger] old(
                            self,
                        ).entries@[j]).name@ != n by {
                            assert(self.entries@[j].name@ != n);
                        }
                    }
                    if first_entry(old(self).entries@, n, k) {
                        assert forall|j: int| 0 <= j < k implies (#[trigger] self.entries@[j]).name@
                            != n by {
                            assert(old(self).entries@[j].name@ != n);
                        }
                    }
                }
                assert(kinds@ =~= seq![kind]);
                assert(self@ =~= declare(old(self)@, name@, kind));
            },
        }
    }

    /// The map of a list of declarations.
    pub fn from_deps(deps: &Vec<DeclaredDep>) -> (map: Self)
        ensures
            map@ == declared_map(dep_views(deps@)),
    {
        let mut map = DeclaredDepsMap::new();
        let mut i: usize = 0;
        while i < deps.len()
            invariant
                i <= deps.len(),
                map@ == declared_map(dep_views(deps@).take(i as int)),
            decreases deps.len() - i,
        {
            map.add(deps[i].name.clone(), deps[i].kind);
            assert(dep_views(deps@).take(i + 1).drop_last() =~= dep_views(deps@).take(i as int));
            i += 1;
        }
        assert(dep_views(deps@).take(i as int) =~= dep_views(deps@));
        map
    }
}

} // verus!
