use vstd::prelude::*;

use crate::diff::{child_path, diff_members, diff_tree, lookup, patch_or_empty};
use crate::merge::{merge, merge_fields, object_fields, lemma_merge_object};
use crate::value::{field_or_null, Tree};

verus! {

/// No member of an object, at any depth outside arrays, is `null`. A merge
/// patch cannot write such a member, since `null` there means deletion.
pub open spec fn null_free(t: Tree) -> bool
    decreases t,
{
    match t {
        Tree::Object(m) => forall|k: Seq<char>|
            #[trigger] m.dom().contains(k) ==> !(m[k] is Null) && null_free(m[k]),
        _ => true,
    }
}

/// `f` is the path `p` or a path below it; every path is below the root.
pub open spec fn at_or_below(f: Seq<char>, p: Seq<char>) -> bool {
    f.len() >= p.len() && f.take(p.len() as int) == p
}

proof fn lemma_child_not_below(f: Seq<char>, p: Seq<char>, k: Seq<char>)
    requires
        p.len() > 0,
        at_or_below(f, child_path(p, k)),
    ensures
        at_or_below(f, p),
{
    let c = child_path(p, k);
    assert(c.take(p.len() as int) =~= p);
    assert(f.take(c.len() as int).take(p.len() as int) =~= f.take(p.len() as int));
}

/// A value diffed against itself gives nothing, where no forced path lies at
/// or below its path.
proof fn lemma_diff_unchanged(x: Tree, forced: Set<Seq<char>>, p: Seq<char>)
    requires
        forall|f: Seq<char>| #[trigger] forced.contains(f) ==> !at_or_below(f, p),
    ensures
        diff_tree(Some(x), x, forced, p) is None,
    decreases x,
{
    assert(!forced.contains(p)) by {
        if forced.contains(p) {
            assert(p.take(p.len() as int) =~= p);
        }
    }
    match x {
        Tree::Object(m) => {
            if p.len() == 0 {
                assert forall|f: Seq<char>| !(#[trigger] forced.contains(f)) by {
                    if forced.contains(f) {
                        assert(f.take(0) =~= p);
                    }
                }
            }
            assert forall|k: Seq<char>| m.dom().contains(k) implies diff_tree(
                lookup(m, k),
                m[k],
                forced,
                child_path(p, k),
            ) is None && !forced.contains(child_path(p, k)) by {
                if p.len() > 0 {
                    assert forall|f: Seq<char>| #[trigger] forced.contains(f) implies !at_or_below(
                        f,
                        child_path(p, k),
                    ) by {
                        if at_or_below(f, child_path(p, k)) {
                            lemma_child_not_below(f, p, k);
                        }
                    }
                    let c = child_path(p, k);
                    if forced.contains(c) {
                        assert(c.take(c.len() as int) =~= c);
                    }
                }
                lemma_diff_unchanged(m[k], forced, child_path(p, k));
            }
            assert(diff_members(m, x, forced, p).dom() =~= Set::<Seq<char>>::empty());
        },
        _ => {},
    }
}

/// A value that changed always gives a patch.
proof fn lemma_diff_changed(old: Option<Tree>, new: Tree, forced: Set<Seq<char>>, p: Seq<char>)
    requires
        old != Some(new),
    ensures
        diff_tree(old, new, forced, p) is Some,
    decreases new,
{
    match new {
        Tree::Object(nm) => match old {
            Some(Tree::Object(om)) => {
                let d = diff_members(om, new, forced, p);
                if d.dom() == Set::<Seq<char>>::empty() {
                    assert forall|k: Seq<char>| nm.dom().contains(k) implies lookup(om, k) == Some(
                        nm[k],
                    ) by {
                        if lookup(om, k) != Some(nm[k]) {
                            lemma_diff_changed(lookup(om, k), nm[k], forced, child_path(p, k));
                            assert(d.dom().contains(k));
                        }
                    }
                    assert forall|k: Seq<char>| om.dom().contains(k) implies nm.dom().contains(k) by {
                        if !nm.dom().contains(k) {
                            assert(d.dom().contains(k));
                        }
                    }
                    assert forall|k: Seq<char>| #[trigger] om.dom().contains(k) <==> nm.dom().contains(
                        k,
                    ) by {
                        if nm.dom().contains(k) {
                            assert(lookup(om, k) == Some(nm[k]));
                        }
                    }
                    assert forall|k: Seq<char>| #[trigger] om.dom().contains(k) implies om[k] == nm[k] by {
                        assert(lookup(om, k) == Some(nm[k]));
                    }
                    assert(om =~= nm);
                }
            },
            _ => {},
        },
        _ => {},
    }
}

/// The patch written for a value that is not `null` is not `null`.
proof fn lemma_diff_not_null(old: Option<Tree>, new: Tree, forced: Set<Seq<char>>, p: Seq<char>)
    requires
        !(new is Null),
        diff_tree(old, new, forced, p) is Some,
    ensures
        !(diff_tree(old, new, forced, p)->Some_0 is Null),
{
}

/// Merging a null-free value onto anything but an object builds that value.
proof fn lemma_merge_onto_scalar(x: Tree, y: Tree)
    requires
        !(x is Object),
        null_free(y),
    ensures
        merge(x, y) == y,
    decreases y,
{
    match y {
        Tree::Object(ym) => {
            lemma_merge_object(x, ym);
            assert forall|k: Seq<char>| ym.dom().contains(k) implies merge(
                field_or_null(object_fields(x), k),
                ym[k],
            ) == ym[k] by {
                lemma_merge_onto_scalar(Tree::Null, ym[k]);
            }
            assert(merge_fields(object_fields(x), ym) =~= ym);
        },
        _ => {},
    }
}

/// Merging a null-free value onto itself leaves it unchanged.
proof fn lemma_merge_self(x: Tree)
    requires
        null_free(x),
    ensures
        merge(x, x) == x,
    decreases x,
{
    match x {
        Tree::Object(m) => {
            lemma_merge_object(x, m);
            assert forall|k: Seq<char>| m.dom().contains(k) implies merge(
                field_or_null(m, k),
                m[k],
            ) == m[k] by {
                lemma_merge_self(m[k]);
            }
            assert(merge_fields(m, m) =~= m);
        },
        _ => {},
    }
}

/// Merging the patch from `old` to a null-free `new` onto `old` gives `new`,
/// whatever paths are forced; where there is no patch, nothing changed.
proof fn lemma_round_trip(old: Option<Tree>, new: Tree, forced: Set<Seq<char>>, p: Seq<char>)
    requires
        null_free(new),
    ensures
        match diff_tree(old, new, forced, p) {
            Some(d) => merge(
                match old {
                    Some(t) => t,
                    None => Tree::Null,
                },
                d,
            ) == new,
            None => old == Some(new),
        },
    decreases new,
{
    let t = match old {
        Some(t) => t,
        None => Tree::Null,
    };
    if old != Some(new) {
        lemma_diff_changed(old, new, forced, p);
    }
    match new {
        Tree::Object(nm) => match old {
            Some(Tree::Object(om)) => {
                let d = diff_members(om, new, forced, p);
                if d.dom() != Set::<Seq<char>>::empty() {
                    lemma_merge_object(t, d);
                    assert forall|k: Seq<char>| nm.dom().contains(k) implies #[trigger] merge_fields(
                        om,
                        d,
                    ).dom().contains(k) && merge_fields(om, d)[k] == nm[k] by {
                        let c = child_path(p, k);
                        lemma_round_trip(lookup(om, k), nm[k], forced, c);
                        match diff_tree(lookup(om, k), nm[k], forced, c) {
                            Some(x) => {
                                lemma_diff_not_null(lookup(om, k), nm[k], forced, c);
                                assert(field_or_null(om, k) == match lookup(om, k) {
                                    Some(t) => t,
                                    None => Tree::Null,
                                });
                            },
                            None => {
                                if forced.contains(c) {
                                    lemma_merge_self(nm[k]);
                                }
                            },
                        }
                    }
                    assert forall|k: Seq<char>| #[trigger] merge_fields(om, d).dom().contains(k)
                        implies nm.dom().contains(k) by {}
                    assert(merge_fields(om, d) =~= nm);
                }
            },
            _ => {
                if old != Some(new) {
                    lemma_merge_onto_scalar(t, new);
                }
            },
        },
        _ => {},
    }
}

/// Merging an empty object onto an object leaves it unchanged.
pub proof fn law_empty_patch_is_identity(base: Tree)
    requires
        base is Object,
    ensures
        merge(base, Tree::Object(Map::empty())) == base,
{
    lemma_merge_object(base, Map::empty());
    assert(merge_fields(base->Object_0, Map::empty()) =~= base->Object_0);
}

/// Diffing a value against itself gives the empty object.
pub proof fn law_diff_of_equal_is_empty(x: Tree)
    ensures
        patch_or_empty(diff_tree(Some(x), x, Set::empty(), Seq::empty())) == Tree::Object(
            Map::empty(),
        ),
{
    lemma_diff_unchanged(x, Set::empty(), Seq::empty());
}

/// Merging the diff from one object to another onto the first gives the
/// second, where the second has no `null` member (a `null` member is what a
/// patch uses to delete).
pub proof fn law_round_trip(old: Tree, new: Tree)
    requires
        old is Object,
        new is Object,
        null_free(new),
    ensures
        merge(old, patch_or_empty(diff_tree(Some(old), new, Set::empty(), Seq::empty()))) == new,
{
    lemma_round_trip(Some(old), new, Set::empty(), Seq::empty());
    if diff_tree(Some(old), new, Set::empty(), Seq::empty()) is None {
        law_empty_patch_is_identity(old);
    }
}

/// The same holds of a diff that forces paths: merged onto `old`, it gives
/// `new`.
pub proof fn law_round_trip_forced(old: Tree, new: Tree, forced: Set<Seq<char>>)
    requires
        old is Object,
        new is Object,
        null_free(new),
    ensures
        merge(old, patch_or_empty(diff_tree(Some(old), new, forced, Seq::empty()))) == new,
{
    lemma_round_trip(Some(old), new, forced, Seq::empty());
    if diff_tree(Some(old), new, forced, Seq::empty()) is None {
        law_empty_patch_is_identity(old);
    }
}

/// A member that `old` has and `new` lacks is written as `null` in the diff,
/// and merging that diff onto `old` removes it.
pub proof fn law_deleted_member(
    old: Map<Seq<char>, Tree>,
    new: Map<Seq<char>, Tree>,
    forced: Set<Seq<char>>,
    k: Seq<char>,
)
    requires
        old.dom().contains(k),
        !new.dom().contains(k),
    ensures
        ({
            let d = diff_tree(Some(Tree::Object(old)), Tree::Object(new), forced, Seq::empty());
            &&& d matches Some(Tree::Object(dm))
            &&& dm.dom().contains(k)
            &&& dm[k] == Tree::Null
            &&& merge(Tree::Object(old), d->Some_0) matches Tree::Object(rm)
            &&& !rm.dom().contains(k)
        }),
{
    let dm = diff_members(old, Tree::Object(new), forced, Seq::empty());
    assert(dm.dom().contains(k));
    lemma_merge_object(Tree::Object(old), dm);
}

/// A member that did not change is left out of the diff, and written, with
/// its value, when its key is forced.
pub proof fn law_forced_member(old: Map<Seq<char>, Tree>, new: Map<Seq<char>, Tree>, k: Seq<char>)
    requires
        k.len() > 0,
        old.dom().contains(k),
        new.dom().contains(k),
        old[k] == new[k],
    ensures
        diff_tree(Some(Tree::Object(old)), Tree::Object(new), Set::empty(), Seq::empty()) matches Some(
            Tree::Object(dm),
        ) ==> !dm.dom().contains(k),
        ({
            let d = diff_tree(Some(Tree::Object(old)), Tree::Object(new), set![k], Seq::empty());
            &&& d matches Some(Tree::Object(dm))
            &&& dm.dom().contains(k)
            &&& dm[k] == new[k]
        }),
{
    assert(child_path(Seq::empty(), k) == k);
    lemma_diff_unchanged(new[k], Set::empty(), k);
    lemma_diff_forced_here(new[k], k);
    let dm = diff_members(old, Tree::Object(new), set![k], Seq::empty());
    assert(dm.dom().contains(k));
}

/// A value at a forced path, unchanged, is written whole.
proof fn lemma_diff_forced_here(x: Tree, p: Seq<char>)
    requires
        p.len() > 0,
    ensures
        match diff_tree(Some(x), x, set![p], p) {
            Some(y) => y == x,
            None => true,
        },
{
    match x {
        Tree::Object(m) => {
            assert forall|k: Seq<char>| m.dom().contains(k) implies diff_tree(
                lookup(m, k),
                m[k],
                set![p],
                child_path(p, k),
            ) is None && !set![p].contains(child_path(p, k)) by {
                let c = child_path(p, k);
                assert forall|f: Seq<char>| #[trigger] set![p].contains(f) implies !at_or_below(f, c) by {
                    assert(f.len() < c.len());
                }
                lemma_diff_unchanged(m[k], set![p], c);
            }
            assert(diff_members(m, x, set![p], p).dom() =~= Set::<Seq<char>>::empty());
        },
        _ => {},
    }
}

/// Forcing the path `k1.k2` of an unchanged member `k2` of the object member
/// `k1` writes `k1` as an object that holds `k2` with its value; a member of
/// `k1` that changed is written whatever is forced.
pub proof fn law_forced_nested_member(
    old: Map<Seq<char>, Tree>,
    new: Map<Seq<char>, Tree>,
    k1: Seq<char>,
    k2: Seq<char>,
    forced: Set<Seq<char>>,
    sibling: Seq<char>,
)
    requires
        k1.len() > 0,
        old.dom().contains(k1),
        new.dom().contains(k1),
        old[k1] is Object,
        new[k1] is Object,
        old[k1]->Object_0.dom().contains(k2),
        new[k1]->Object_0.dom().contains(k2),
        old[k1]->Object_0[k2] == new[k1]->Object_0[k2],
    ensures
        ({
            let d = diff_tree(
                Some(Tree::Object(old)),
                Tree::Object(new),
                set![k1 + seq!['.'] + k2],
                Seq::empty(),
            );
            &&& d matches Some(Tree::Object(dm))
            &&& dm.dom().contains(k1)
            &&& dm[k1] matches Tree::Object(pm)
            &&& pm.dom().contains(k2)
            &&& pm[k2] == new[k1]->Object_0[k2]
        }),
        new[k1]->Object_0.dom().contains(sibling) && lookup(old[k1]->Object_0, sibling) != Some(
            new[k1]->Object_0[sibling],
        ) ==> ({
            let d = diff_tree(Some(Tree::Object(old)), Tree::Object(new), forced, Seq::empty());
            &&& d matches Some(Tree::Object(dm))
            &&& dm.dom().contains(k1)
            &&& dm[k1] matches Tree::Object(pm)
            &&& pm.dom().contains(sibling)
        }),
{
    let op = old[k1]->Object_0;
    let np = new[k1]->Object_0;
    let path = k1 + seq!['.'] + k2;
    assert(child_path(Seq::empty(), k1) == k1);
    assert(child_path(k1, k2) == path);
    lemma_diff_forced_here(np[k2], path);
    let inner = diff_members(op, new[k1], set![path], k1);
    assert(inner.dom().contains(k2));
    let outer = diff_members(old, Tree::Object(new), set![path], Seq::empty());
    assert(outer.dom().contains(k1));
    if np.dom().contains(sibling) && lookup(op, sibling) != Some(np[sibling]) {
        lemma_diff_changed(lookup(op, sibling), np[sibling], forced, child_path(k1, sibling));
        let inner2 = diff_members(op, new[k1], forced, k1);
        assert(inner2.dom().contains(sibling));
        let outer2 = diff_members(old, Tree::Object(new), forced, Seq::empty());
        assert(outer2.dom().contains(k1));
    }
}

} // verus!
