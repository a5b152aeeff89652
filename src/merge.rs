use vstd::prelude::*;

use crate::value::{
    field_or_null, fields_of, find_key, keys_unique, lemma_fields_of, lemma_fields_remove,
    lemma_fields_take,
    lemma_fields_update, lemma_member_decreases, tree_of, wf, Json, Tree,
};

verus! {

broadcast use vstd::std_specs::vec::group_vec_axioms;

/// The members of `t` if it is an object, and none otherwise.
pub open spec fn object_fields(t: Tree) -> Map<Seq<char>, Tree> {
    match t {
        Tree::Object(m) => m,
        _ => Map::empty(),
    }
}

/// JSON Merge Patch: an object patch sets each of its members on the
/// target (made an object first if it is not one), merging recursively, and
/// deletes the members whose patch value is `null`; any other patch replaces
/// the target.
pub open spec fn merge(target: Tree, patch: Tree) -> Tree
    decreases patch,
{
    match patch {
        Tree::Object(p) => {
            let t = object_fields(target);
            Tree::Object(
                Map::new(
                    |k: Seq<char>|
                        if p.dom().contains(k) {
                            !(p[k] is Null)
                        } else {
                            t.dom().contains(k)
                        },
                    |k: Seq<char>|
                        if p.dom().contains(k) {
                            merge(field_or_null(t, k), p[k])
                        } else {
                            t[k]
                        },
                ),
            )
        },
        _ => patch,
    }
}

/// The members that merging the object patch `p` onto the members `t` gives.
pub open spec fn merge_fields(t: Map<Seq<char>, Tree>, p: Map<Seq<char>, Tree>) -> Map<
    Seq<char>,
    Tree,
> {
    Map::new(
        |k: Seq<char>|
            if p.dom().contains(k) {
                !(p[k] is Null)
            } else {
                t.dom().contains(k)
            },
        |k: Seq<char>|
            if p.dom().contains(k) {
                merge(field_or_null(t, k), p[k])
            } else {
                t[k]
            },
    )
}

pub proof fn lemma_merge_object(target: Tree, p: Map<Seq<char>, Tree>)
    ensures
        merge(target, Tree::Object(p)) == Tree::Object(merge_fields(object_fields(target), p)),
{
    assert(merge(target, Tree::Object(p))->Object_0 =~= merge_fields(object_fields(target), p));
}

/// Merging one more member, whose key the patch did not have yet.
proof fn lemma_merge_fields_insert(
    t: Map<Seq<char>, Tree>,
    p: Map<Seq<char>, Tree>,
    k: Seq<char>,
    v: Tree,
)
    requires
        !p.dom().contains(k),
    ensures
        v is Null ==> merge_fields(t, p.insert(k, v)) == merge_fields(t, p).remove(k),
        !(v is Null) ==> merge_fields(t, p.insert(k, v)) == merge_fields(t, p).insert(
            k,
            merge(field_or_null(t, k), v),
        ),
{
    if v is Null {
        assert(merge_fields(t, p.insert(k, v)) =~= merge_fields(t, p).remove(k));
    } else {
        assert(merge_fields(t, p.insert(k, v)) =~= merge_fields(t, p).insert(
            k,
            merge(field_or_null(t, k), v),
        ));
    }
}

/// Merges `patch` onto `target`, consuming `target`.
fn merge_value(target: Json, patch: &Json) -> (r: Json)
    requires
        target.wf(),
        patch.wf(),
    ensures
        r.wf(),
        r@ == merge(target@, patch@),
    decreases patch,
{
    match patch {
        Json::Object(pes) => {
            let ghost t = object_fields(target@);
            let mut es: Vec<(String, Json)> = match target {
                Json::Object(es) => es,
                _ => Vec::new(),
            };
            proof {
                assert(fields_of(pes@.take(0)) =~= Map::<Seq<char>, Tree>::empty());
                assert(merge_fields(t, Map::empty()) =~= t);
                if es@.len() == 0 {
                    assert(fields_of(es@) =~= t);
                }
            }
            let mut i: usize = 0;
            while i < pes.len()
                invariant
                    *patch == Json::Object(*pes),
                    wf(*patch),
                    i <= pes.len(),
                    keys_unique(es@),
                    forall|j: int| 0 <= j < es.len() ==> wf(#[trigger] es@[j].1),
                    fields_of(es@) == merge_fields(t, fields_of(pes@.take(i as int))),
                decreases pes.len() - i,
            {
                let key = &pes[i].0;
                let pv = &pes[i].1;
                let ghost pm = fields_of(pes@.take(i as int));
                let ghost m = fields_of(es@);
                proof {
                    lemma_fields_take(pes@, i as int);
                    lemma_merge_fields_insert(t, pm, key@, pv@);
                    lemma_fields_of(es@);
                    lemma_member_decreases(*patch, i as int);
                    assert(wf(pes@[i as int].1));
                }
                let found = find_key(&es, key);
                match pv {
                    Json::Null => {
                        match found {
                            Some(j) => {
                                proof {
                                    lemma_fields_remove(es@, j as int);
                                }
                                es.remove(j);
                            },
                            None => {
                                proof {
                                    assert(m.remove(key@) =~= m);
                                }
                            },
                        }
                    },
                    _ => {
                        match found {
                            Some(j) => {
                                let ghost orig = es@;
                                proof {
                                    assert(orig[j as int] == orig[j as int]);
                                    assert(m.dom().contains(key@));
                                    assert(m[key@] == tree_of(orig[j as int].1));
                                    assert(field_or_null(t, key@) == tree_of(orig[j as int].1));
                                }
                                let (k, child) = es.remove(j);
                                let merged = merge_value(child, pv);
                                es.insert(j, (k, merged));
                                proof {
                                    assert(es@ =~= orig.update(j as int, es@[j as int]));
                                    lemma_fields_update(orig, j as int, es@[j as int]);
                                }
                            },
                            None => {
                                proof {
                                    assert(!m.dom().contains(key@));
                                    assert(field_or_null(t, key@) == Tree::Null);
                                }
                                let merged = merge_value(Json::Null, pv);
                                let ghost before = es@;
                                es.push((key.clone(), merged));
                                proof {
                                    assert(es@.drop_last() == before);
                                }
                            },
                        }
                    },
                }
                i = i + 1;
            }
            proof {
                assert(pes@.take(pes@.len() as int) == pes@);
                lemma_merge_object(target@, fields_of(pes@));
            }
            Json::Object(es)
        },
        _ => patch.deep_clone(),
    }
}

/// Merges `patch` into `target` in place (JSON Merge Patch).
pub fn merge_patch(target: &mut Json, patch: &Json)
    requires
        old(target).wf(),
        patch.wf(),
    ensures
        final(target).wf(),
        final(target)@ == merge(old(target)@, patch@),
{
    let mut current = Json::Null;
    std::mem::swap(target, &mut current);
    *target = merge_value(current, patch);
}

/// Applies `patch` to `current` and returns the updated tree.
pub fn apply_merge_patch(current: Json, patch: &Json) -> (r: Json)
    requires
        current.wf(),
        patch.wf(),
    ensures
        r.wf(),
        r@ == merge(current@, patch@),
{
    merge_value(current, patch)
}

/// Applies `patch` to `current` in place.
pub fn apply_merge_patch_mut(current: &mut Json, patch: &Json)
    requires
        old(current).wf(),
        patch.wf(),
    ensures
        final(current).wf(),
        final(current)@ == merge(old(current)@, patch@),
{
    merge_patch(current, patch);
}

} // verus!
