use vstd::prelude::*;
use vstd::string::StringExecFns;

use crate::value::{
    fields_of, find_key, json_eq, keys_unique, lemma_fields_of, lemma_fields_take,
    lemma_member_decreases, lemma_push_member, tree_of, wf, Json, Tree,
};

verus! {

broadcast use vstd::std_specs::vec::group_vec_axioms;

/// The value of `m` at `k`, if it has one.
pub open spec fn lookup(m: Map<Seq<char>, Tree>, k: Seq<char>) -> Option<Tree> {
    if m.dom().contains(k) {
        Some(m[k])
    } else {
        None
    }
}

/// The dot-joined path of member `key` below the node at `path`.
pub open spec fn child_path(path: Seq<char>, key: Seq<char>) -> Seq<char> {
    if path.len() == 0 {
        key
    } else {
        path + seq!['.'] + key
    }
}

/// A pair compared as a whole: `None` when nothing changed and the path is
/// not forced, else the new value.
pub open spec fn diff_atomic(
    old: Option<Tree>,
    new: Tree,
    forced: Set<Seq<char>>,
    path: Seq<char>,
) -> Option<Tree> {
    if old == Some(new) && !forced.contains(path) {
        None
    } else {
        Some(new)
    }
}

/// The merge patch that turns `old` into `new`, with the members whose paths
/// are in `forced` included even where unchanged; `None` where nothing is
/// to be written.
pub open spec fn diff_tree(
    old: Option<Tree>,
    new: Tree,
    forced: Set<Seq<char>>,
    path: Seq<char>,
) -> Option<Tree>
    decreases new, 1nat,
{
    match new {
        Tree::Object(nm) => match old {
            Some(Tree::Object(om)) => {
                let d = diff_members(om, new, forced, path);
                if d.dom() == Set::<Seq<char>>::empty() {
                    None
                } else {
                    Some(Tree::Object(d))
                }
            },
            _ => diff_atomic(old, new, forced, path),
        },
        _ => diff_atomic(old, new, forced, path),
    }
}

/// The diff of two objects, member by member: for each key of the new
/// object, its diff, or its new value where unchanged but forced; for each
/// key that only `om` has, a `null`.
pub open spec fn diff_members(
    om: Map<Seq<char>, Tree>,
    new: Tree,
    forced: Set<Seq<char>>,
    path: Seq<char>,
) -> Map<Seq<char>, Tree>
    decreases new, 0nat,
{
    match new {
        Tree::Object(nm) => Map::new(
            |k: Seq<char>|
                if nm.dom().contains(k) {
                    diff_tree(lookup(om, k), nm[k], forced, child_path(path, k)) is Some
                        || forced.contains(child_path(path, k))
                } else {
                    om.dom().contains(k)
                },
            |k: Seq<char>|
                if nm.dom().contains(k) {
                    match diff_tree(lookup(om, k), nm[k], forced, child_path(path, k)) {
                        Some(x) => x,
                        None => nm[k],
                    }
                } else {
                    Tree::Null
                },
        ),
        _ => Map::empty(),
    }
}

/// The paths that a list of strings names.
pub open spec fn forced_set(v: Seq<String>) -> Set<Seq<char>> {
    Set::new(|p: Seq<char>| exists|i: int| 0 <= i < v.len() && v[i]@ == p)
}

/// The paths that a list of string slices names.
pub open spec fn paths_of(v: Seq<&str>) -> Set<Seq<char>> {
    Set::new(|p: Seq<char>| exists|i: int| 0 <= i < v.len() && v[i]@ == p)
}

pub open spec fn opt_tree(o: Option<Json>) -> Option<Tree> {
    match o {
        Some(j) => Some(j@),
        None => None,
    }
}

/// What the top-level diff returns: the patch, or an empty object where
/// there is nothing to write.
pub open spec fn patch_or_empty(o: Option<Tree>) -> Tree {
    match o {
        Some(t) => t,
        None => Tree::Object(Map::empty()),
    }
}

fn is_forced(forced: &Vec<String>, path: &String) -> (r: bool)
    ensures
        r == forced_set(forced@).contains(path@),
{
    let mut i: usize = 0;
    while i < forced.len()
        invariant
            i <= forced.len(),
            forall|j: int| 0 <= j < i ==> forced@[j]@ != path@,
        decreases forced.len() - i,
    {
        if forced[i] == *path {
            return true;
        }
        i = i + 1;
    }
    false
}

fn join_path(path: &str, key: &String) -> (r: String)
    ensures
        r@ == child_path(path@, key@),
{
    if path.is_empty() {
        key.clone()
    } else {
        let mut p = path.to_owned();
        proof {
            reveal_strlit(".");
        }
        p.append(".");
        p.append(key.as_str());
        p
    }
}

/// The part of an object diff that comes from the members `nm` of the new
/// object.
pub open spec fn diff_new_part(
    om: Map<Seq<char>, Tree>,
    nm: Map<Seq<char>, Tree>,
    forced: Set<Seq<char>>,
    path: Seq<char>,
) -> Map<Seq<char>, Tree> {
    Map::new(
        |k: Seq<char>|
            nm.dom().contains(k) && (diff_tree(lookup(om, k), nm[k], forced, child_path(path, k)) is Some
                || forced.contains(child_path(path, k))),
        |k: Seq<char>|
            match diff_tree(lookup(om, k), nm[k], forced, child_path(path, k)) {
                Some(x) => x,
                None => nm[k],
            },
    )
}

/// A `null` for each key of `om` that `nm` lacks.
pub open spec fn deletions(om: Map<Seq<char>, Tree>, nm: Map<Seq<char>, Tree>) -> Map<
    Seq<char>,
    Tree,
> {
    Map::new(|k: Seq<char>| om.dom().contains(k) && !nm.dom().contains(k), |k: Seq<char>| Tree::Null)
}

proof fn lemma_diff_members_split(
    om: Map<Seq<char>, Tree>,
    nm: Map<Seq<char>, Tree>,
    forced: Set<Seq<char>>,
    path: Seq<char>,
)
    ensures
        diff_members(om, Tree::Object(nm), forced, path) == diff_new_part(
            om,
            nm,
            forced,
            path,
        ).union_prefer_right(deletions(om, nm)),
{
    assert(diff_members(om, Tree::Object(nm), forced, path) =~= diff_new_part(
        om,
        nm,
        forced,
        path,
    ).union_prefer_right(deletions(om, nm)));
}

proof fn lemma_diff_new_part_insert(
    om: Map<Seq<char>, Tree>,
    nm: Map<Seq<char>, Tree>,
    forced: Set<Seq<char>>,
    path: Seq<char>,
    k: Seq<char>,
    v: Tree,
)
    requires
        !nm.dom().contains(k),
    ensures
        ({
            let sub = diff_tree(lookup(om, k), v, forced, child_path(path, k));
            let before = diff_new_part(om, nm, forced, path);
            let after = diff_new_part(om, nm.insert(k, v), forced, path);
            &&& sub is Some ==> after == before.insert(k, sub->Some_0)
            &&& sub is None && forced.contains(child_path(path, k)) ==> after == before.insert(k, v)
            &&& sub is None && !forced.contains(child_path(path, k)) ==> after == before
        }),
{
    let sub = diff_tree(lookup(om, k), v, forced, child_path(path, k));
    let before = diff_new_part(om, nm, forced, path);
    let after = diff_new_part(om, nm.insert(k, v), forced, path);
    if sub is Some {
        assert(after =~= before.insert(k, sub->Some_0));
    } else if forced.contains(child_path(path, k)) {
        assert(after =~= before.insert(k, v));
    } else {
        assert(after =~= before);
    }
}

proof fn lemma_deletions_insert(
    a: Map<Seq<char>, Tree>,
    om: Map<Seq<char>, Tree>,
    nm: Map<Seq<char>, Tree>,
    k: Seq<char>,
    v: Tree,
)
    ensures
        nm.dom().contains(k) ==> a.union_prefer_right(deletions(om.insert(k, v), nm))
            == a.union_prefer_right(deletions(om, nm)),
        !nm.dom().contains(k) ==> a.union_prefer_right(deletions(om.insert(k, v), nm))
            == a.union_prefer_right(deletions(om, nm)).insert(k, Tree::Null),
{
    if nm.dom().contains(k) {
        assert(a.union_prefer_right(deletions(om.insert(k, v), nm)) =~= a.union_prefer_right(
            deletions(om, nm),
        ));
    } else {
        assert(a.union_prefer_right(deletions(om.insert(k, v), nm)) =~= a.union_prefer_right(
            deletions(om, nm),
        ).insert(k, Tree::Null));
    }
}

pub open spec fn opt_view(o: Option<&Json>) -> Option<Tree> {
    match o {
        Some(j) => Some(j@),
        None => None,
    }
}

/// Computes the merge patch from `old` to `new` below the node at
/// `current_path`, including the members whose paths are in `forced` even
/// where unchanged; `None` where there is nothing to write.
pub fn compute_diff(old: Option<&Json>, new: &Json, forced: &Vec<String>, current_path: &str) -> (r:
    Option<Json>)
    requires
        old matches Some(o) ==> o.wf(),
        new.wf(),
    ensures
        r matches Some(j) ==> j.wf(),
        opt_tree(r) == diff_tree(opt_view(old), new@, forced_set(forced@), current_path@),
    decreases new,
{
    let ghost fs = forced_set(forced@);
    let ghost path = current_path@;
    match (old, new) {
        (Some(Json::Object(oes)), Json::Object(nes)) => {
            let ghost om = fields_of(oes@);
            let ghost nm = fields_of(nes@);
            proof {
                lemma_fields_of(oes@);
                lemma_fields_of(nes@);
                lemma_diff_members_split(om, nm, fs, path);
                assert(fields_of(nes@.take(0)) =~= Map::<Seq<char>, Tree>::empty());
                assert(diff_new_part(om, Map::empty(), fs, path) =~= Map::<Seq<char>, Tree>::empty());
            }
            let mut out: Vec<(String, Json)> = Vec::new();
            let mut i: usize = 0;
            while i < nes.len()
                invariant
                    *new == Json::Object(*nes),
                    wf(*new),
                    wf(Json::Object(*oes)),
                    om == fields_of(oes@),
                    nm == fields_of(nes@),
                    fs == forced_set(forced@),
                    path == current_path@,
                    i <= nes.len(),
                    forall|k: Seq<char>|
                        #[trigger] om.dom().contains(k) <==> exists|j: int|
                            0 <= j < oes.len() && (#[trigger] oes@[j]).0@ == k,
                    forall|j: int|
                        0 <= j < oes.len() && (forall|l: int| j < l < oes.len() ==> oes@[l].0@ != oes@[j].0@)
                            ==> om[(#[trigger] oes@[j]).0@] == tree_of(oes@[j].1),
                    keys_unique(out@),
                    forall|j: int| 0 <= j < out.len() ==> wf(#[trigger] out@[j].1),
                    fields_of(out@) == diff_new_part(om, fields_of(nes@.take(i as int)), fs, path),
                decreases nes.len() - i,
            {
                let key = &nes[i].0;
                let nv = &nes[i].1;
                let ghost pm = fields_of(nes@.take(i as int));
                proof {
                    lemma_fields_take(nes@, i as int);
                    lemma_diff_new_part_insert(om, pm, fs, path, key@, nv@);
                    lemma_member_decreases(*new, i as int);
                    assert(wf(nes@[i as int].1));
                }
                let full_path = join_path(current_path, key);
                let old_value = match find_key(oes, key) {
                    Some(j) => {
                        proof {
                            assert(oes@[j as int] == oes@[j as int]);
                            assert(wf(oes@[j as int].1));
                        }
                        Some(&oes[j].1)
                    },
                    None => None,
                };
                assert(opt_view(old_value) == lookup(om, key@));
                let sub = compute_diff(old_value, nv, forced, full_path.as_str());
                match sub {
                    Some(dv) => {
                        let k = key.clone();
                        proof {
                            lemma_push_member(out@, (k, dv));
                        }
                        out.push((k, dv));
                    },
                    None => {
                        if is_forced(forced, &full_path) {
                            let k = key.clone();
                            let c = nv.deep_clone();
                            proof {
                                lemma_push_member(out@, (k, c));
                            }
                            out.push((k, c));
                        }
                    },
                }
                i = i + 1;
            }
            proof {
                assert(nes@.take(nes@.len() as int) == nes@);
                assert(deletions(Map::empty(), nm) =~= Map::<Seq<char>, Tree>::empty());
                assert(fields_of(oes@.take(0)) =~= Map::<Seq<char>, Tree>::empty());
                assert(fields_of(out@).union_prefer_right(Map::empty()) =~= fields_of(out@));
            }
            let ghost dn = diff_new_part(om, nm, fs, path);
            let mut i: usize = 0;
            while i < oes.len()
                invariant
                    wf(Json::Object(*oes)),
                    wf(Json::Object(*nes)),
                    nm == fields_of(nes@),
                    i <= oes.len(),
                    forall|k: Seq<char>|
                        #[trigger] nm.dom().contains(k) <==> exists|j: int|
                            0 <= j < nes.len() && (#[trigger] nes@[j]).0@ == k,
                    forall|k: Seq<char>| #[trigger] dn.dom().contains(k) ==> nm.dom().contains(k),
                    keys_unique(out@),
                    forall|j: int| 0 <= j < out.len() ==> wf(#[trigger] out@[j].1),
                    fields_of(out@) == dn.union_prefer_right(deletions(fields_of(oes@.take(i as int)), nm)),
                decreases oes.len() - i,
            {
                let key = &oes[i].0;
                proof {
                    lemma_fields_take(oes@, i as int);
                    lemma_deletions_insert(dn, fields_of(oes@.take(i as int)), nm, key@, tree_of(oes@[i as int].1));
                }
                match find_key(nes, key) {
                    Some(j) => {
                        assert(nes@[j as int] == nes@[j as int]);
                    },
                    None => {
                        let k = key.clone();
                        proof {
                            assert(!nm.dom().contains(key@));
                            lemma_push_member(out@, (k, Json::Null));
                        }
                        out.push((k, Json::Null));
                    },
                }
                i = i + 1;
            }
            proof {
                assert(oes@.take(oes@.len() as int) == oes@);
                lemma_fields_of(out@);
                assert(new@ == Tree::Object(nm));
                assert(opt_view(old) == Some(Tree::Object(om)));
            }
            if out.len() == 0 {
                proof {
                    assert(fields_of(out@).dom() =~= Set::<Seq<char>>::empty());
                }
                None
            } else {
                proof {
                    assert(out@[0] == out@[0]);
                    assert(fields_of(out@).dom().contains(out@[0].0@));
                }
                Some(Json::Object(out))
            }
        },
        _ => {
            let equal = match old {
                Some(o) => json_eq(o, new),
                None => false,
            };
            if equal && !is_forced(forced, &current_path.to_owned()) {
                None
            } else {
                Some(new.deep_clone())
            }
        },
    }
}

/// The merge patch that turns `old` into `new`; an empty object where they
/// are equal.
pub fn diff(old: &Json, new: &Json) -> (r: Json)
    requires
        old.wf(),
        new.wf(),
    ensures
        r.wf(),
        r@ == patch_or_empty(diff_tree(Some(old@), new@, Set::empty(), Seq::empty())),
{
    let forced: Vec<String> = Vec::new();
    proof {
        assert(forced_set(forced@) =~= Set::<Seq<char>>::empty());
    }
    let root = String::new();
    match compute_diff(Some(old), new, &forced, root.as_str()) {
        Some(d) => d,
        None => Json::new_object(),
    }
}

/// Like `diff`, but each member whose dot-joined path is in `including` is
/// written even where unchanged.
pub fn diff_including(old: &Json, new: &Json, including: &[&str]) -> (r: Json)
    requires
        old.wf(),
        new.wf(),
    ensures
        r.wf(),
        r@ == patch_or_empty(diff_tree(Some(old@), new@, paths_of(including@), Seq::empty())),
{
    let mut forced: Vec<String> = Vec::new();
    let mut i: usize = 0;
    while i < including.len()
        invariant
            i <= including.len(),
            forced.len() == i,
            forall|j: int| 0 <= j < i ==> (#[trigger] forced@[j])@ == including@[j]@,
        decreases including.len() - i,
    {
        forced.push(including[i].to_owned());
        i = i + 1;
    }
    proof {
        assert forall|p: Seq<char>| #[trigger] forced_set(forced@).contains(p) <==> paths_of(
            including@,
        ).contains(p) by {
            if forced_set(forced@).contains(p) {
                let j = choose|j: int| 0 <= j < forced.len() && forced@[j]@ == p;
                assert(including@[j]@ == p);
            }
            if paths_of(including@).contains(p) {
                let j = choose|j: int| 0 <= j < including.len() && including@[j]@ == p;
                assert(forced@[j]@ == p);
            }
        }
        assert(forced_set(forced@) =~= paths_of(including@));
    }
    let root = String::new();
    match compute_diff(Some(old), new, &forced, root.as_str()) {
        Some(d) => d,
        None => Json::new_object(),
    }
}

} // verus!
