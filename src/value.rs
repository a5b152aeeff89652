use vstd::prelude::*;

verus! {

broadcast use vstd::std_specs::vec::group_vec_axioms;

/// A JSON number, in the three forms a JSON document can carry.
#[derive(Clone, Copy, Debug, PartialEq, Eq, Structural)]
pub enum Number {
    /// A non-negative integer.
    PosInt(u64),
    /// A negative integer.
    NegInt(i64),
    /// A finite floating-point value, held by its IEEE 754 bit pattern.
    Float(u64),
}

/// The mathematical value of a JSON tree: objects are finite maps, so the
/// order in which an object's members are written carries no meaning.
pub enum Tree {
    Null,
    Bool(bool),
    Number(Number),
    Str(Seq<char>),
    Array(Seq<Tree>),
    Object(Map<Seq<char>, Tree>),
}

/// A JSON tree. An object is a list of members whose keys are unique
/// (see `wf`), kept in the order in which they were inserted.
#[derive(Debug)]
pub enum Json {
    Null,
    Bool(bool),
    Number(Number),
    String(String),
    Array(Vec<Json>),
    Object(Vec<(String, Json)>),
}

pub open spec fn tree_of(j: Json) -> Tree
    decreases j,
{
    match j {
        Json::Null => Tree::Null,
        Json::Bool(b) => Tree::Bool(b),
        Json::Number(n) => Tree::Number(n),
        Json::String(s) => Tree::Str(s@),
        Json::Array(v) => Tree::Array(trees_of(v@)),
        Json::Object(es) => Tree::Object(fields_of(es@)),
    }
}

pub open spec fn trees_of(s: Seq<Json>) -> Seq<Tree>
    decreases s,
{
    if s.len() == 0 {
        Seq::empty()
    } else {
        trees_of(s.drop_last()).push(tree_of(s.last()))
    }
}

/// The map that a list of members denotes; a later member wins over an
/// earlier one with the same key.
pub open spec fn fields_of(s: Seq<(String, Json)>) -> Map<Seq<char>, Tree>
    decreases s,
{
    if s.len() == 0 {
        Map::empty()
    } else {
        fields_of(s.drop_last()).insert(s.last().0@, tree_of(s.last().1))
    }
}

impl View for Json {
    type V = Tree;

    open spec fn view(&self) -> Tree {
        tree_of(*self)
    }
}

pub open spec fn keys_unique(s: Seq<(String, Json)>) -> bool {
    forall|i: int, j: int| 0 <= i < s.len() && 0 <= j < s.len() && i != j ==> s[i].0@ != s[j].0@
}

/// Every object in the tree, at any depth, has unique keys.
pub open spec fn wf(j: Json) -> bool
    decreases j,
{
    match j {
        Json::Array(v) => forall|i: int| 0 <= i < v.len() ==> wf(#[trigger] v@[i]),
        Json::Object(es) => keys_unique(es@) && forall|i: int|
            0 <= i < es.len() ==> wf(#[trigger] es@[i].1),
        _ => true,
    }
}

impl Json {
    pub open spec fn wf(&self) -> bool {
        wf(*self)
    }
}

/// The value of `m` at `k`, or `Null` where `m` has no such key.
pub open spec fn field_or_null(m: Map<Seq<char>, Tree>, k: Seq<char>) -> Tree {
    if m.dom().contains(k) {
        m[k]
    } else {
        Tree::Null
    }
}

pub proof fn lemma_trees_of(s: Seq<Json>)
    ensures
        trees_of(s).len() == s.len(),
        forall|i: int| 0 <= i < s.len() ==> #[trigger] trees_of(s)[i] == tree_of(s[i]),
    decreases s.len(),
{
    if s.len() > 0 {
        lemma_trees_of(s.drop_last());
    }
}

pub proof fn lemma_fields_of(s: Seq<(String, Json)>)
    ensures
        forall|k: Seq<char>|
            #[trigger] fields_of(s).dom().contains(k) <==> exists|i: int|
                0 <= i < s.len() && (#[trigger] s[i]).0@ == k,
        forall|i: int|
            0 <= i < s.len() && (forall|j: int| i < j < s.len() ==> s[j].0@ != s[i].0@)
                ==> fields_of(s)[(#[trigger] s[i]).0@] == tree_of(s[i].1),
        fields_of(s).dom().finite(),
    decreases s.len(),
{
    if s.len() > 0 {
        let p = s.drop_last();
        lemma_fields_of(p);
        assert forall|k: Seq<char>| #[trigger] fields_of(s).dom().contains(k) implies exists|i: int|
            0 <= i < s.len() && (#[trigger] s[i]).0@ == k by {
            if k != s.last().0@ {
                let i = choose|i: int| 0 <= i < p.len() && (#[trigger] p[i]).0@ == k;
                assert(s[i] == p[i]);
            }
        }
        assert forall|k: Seq<char>|
            (exists|i: int| 0 <= i < s.len() && (#[trigger] s[i]).0@ == k) implies #[trigger] fields_of(
            s,
        ).dom().contains(k) by {
            let i = choose|i: int| 0 <= i < s.len() && (#[trigger] s[i]).0@ == k;
            if i < s.len() - 1 {
                assert(p[i] == s[i]);
            }
        }
        assert forall|i: int|
            0 <= i < s.len() && (forall|j: int| i < j < s.len() ==> s[j].0@ != s[i].0@) implies fields_of(
            s,
        )[(#[trigger] s[i]).0@] == tree_of(s[i].1) by {
            if i < s.len() - 1 {
                assert(p[i] == s[i]);
                assert forall|j: int| i < j < p.len() implies p[j].0@ != p[i].0@ by {
                    assert(p[j] == s[j]);
                }
            }
        }
    }
}

/// Two member lists with the same keys and values, member by member,
/// denote the same map.
pub proof fn lemma_fields_of_pointwise(a: Seq<(String, Json)>, b: Seq<(String, Json)>)
    requires
        a.len() == b.len(),
        forall|i: int| 0 <= i < a.len() ==> (#[trigger] a[i]).0@ == b[i].0@ && tree_of(a[i].1) == tree_of(b[i].1),
    ensures
        fields_of(a) == fields_of(b),
    decreases a.len(),
{
    if a.len() > 0 {
        let (pa, pb) = (a.drop_last(), b.drop_last());
        assert forall|i: int| 0 <= i < pa.len() implies (#[trigger] pa[i]).0@ == pb[i].0@ && tree_of(pa[i].1) == tree_of(pb[i].1) by {
            assert(pa[i] == a[i] && pb[i] == b[i]);
        }
        lemma_fields_of_pointwise(pa, pb);
        assert(a.last() == a[a.len() - 1]);
    }
}

/// Taking out the member at `j` takes its key out of the map.
pub proof fn lemma_fields_remove(es: Seq<(String, Json)>, j: int)
    requires
        keys_unique(es),
        0 <= j < es.len(),
    ensures
        keys_unique(es.remove(j)),
        fields_of(es.remove(j)) == fields_of(es).remove(es[j].0@),
{
    let r = es.remove(j);
    lemma_fields_of(es);
    lemma_fields_of(r);
    assert forall|a: int, b: int|
        0 <= a < r.len() && 0 <= b < r.len() && a != b implies r[a].0@ != r[b].0@ by {
        let a2 = if a < j { a } else { a + 1 };
        let b2 = if b < j { b } else { b + 1 };
        assert(r[a] == es[a2] && r[b] == es[b2]);
    }
    assert forall|k: Seq<char>| #[trigger] fields_of(r).dom().contains(k) <==> fields_of(es).remove(
        es[j].0@,
    ).dom().contains(k) by {
        if fields_of(r).dom().contains(k) {
            let a = choose|a: int| 0 <= a < r.len() && (#[trigger] r[a]).0@ == k;
            let a2 = if a < j { a } else { a + 1 };
            assert(r[a] == es[a2]);
        }
        if fields_of(es).remove(es[j].0@).dom().contains(k) {
            let a = choose|a: int| 0 <= a < es.len() && (#[trigger] es[a]).0@ == k;
            assert(a != j);
            if a < j {
                assert(r[a] == es[a]);
            } else {
                assert(r[a - 1] == es[a]);
            }
        }
    }
    assert forall|k: Seq<char>| #[trigger] fields_of(r).dom().contains(k) implies fields_of(r)[k]
        == fields_of(es)[k] by {
        let a = choose|a: int| 0 <= a < r.len() && (#[trigger] r[a]).0@ == k;
        let a2 = if a < j { a } else { a + 1 };
        assert(r[a] == es[a2]);
    }
    assert(fields_of(r) =~= fields_of(es).remove(es[j].0@));
}

/// Replacing the member at `j` by one with the same key sets that key.
pub proof fn lemma_fields_update(es: Seq<(String, Json)>, j: int, e: (String, Json))
    requires
        keys_unique(es),
        0 <= j < es.len(),
        e.0@ == es[j].0@,
    ensures
        keys_unique(es.update(j, e)),
        fields_of(es.update(j, e)) == fields_of(es).insert(e.0@, tree_of(e.1)),
{
    let r = es.update(j, e);
    lemma_fields_of(es);
    lemma_fields_of(r);
    assert forall|a: int, b: int|
        0 <= a < r.len() && 0 <= b < r.len() && a != b implies r[a].0@ != r[b].0@ by {
        assert(r[a].0@ == es[a].0@ && r[b].0@ == es[b].0@);
    }
    assert forall|k: Seq<char>| #[trigger] fields_of(r).dom().contains(k) <==> fields_of(es).insert(
        e.0@,
        tree_of(e.1),
    ).dom().contains(k) by {
        if fields_of(r).dom().contains(k) {
            let a = choose|a: int| 0 <= a < r.len() && (#[trigger] r[a]).0@ == k;
            assert(r[a].0@ == es[a].0@);
        }
        if fields_of(es).dom().contains(k) {
            let a = choose|a: int| 0 <= a < es.len() && (#[trigger] es[a]).0@ == k;
            assert(r[a].0@ == es[a].0@);
        }
        assert(r[j] == e);
    }
    assert forall|k: Seq<char>| #[trigger] fields_of(r).dom().contains(k) implies fields_of(r)[k]
        == fields_of(es).insert(e.0@, tree_of(e.1))[k] by {
        let a = choose|a: int| 0 <= a < r.len() && (#[trigger] r[a]).0@ == k;
        if a != j {
            assert(r[a] == es[a]);
        }
    }
    assert(fields_of(r) =~= fields_of(es).insert(e.0@, tree_of(e.1)));
}

/// The first `i + 1` members denote the first `i` with one more inserted.
pub proof fn lemma_fields_take(es: Seq<(String, Json)>, i: int)
    requires
        keys_unique(es),
        0 <= i < es.len(),
    ensures
        fields_of(es.take(i + 1)) == fields_of(es.take(i)).insert(es[i].0@, tree_of(es[i].1)),
        !fields_of(es.take(i)).dom().contains(es[i].0@),
{
    assert(es.take(i + 1).drop_last() == es.take(i));
    lemma_fields_of(es.take(i));
    if fields_of(es.take(i)).dom().contains(es[i].0@) {
        let a = choose|a: int| 0 <= a < i && (#[trigger] es.take(i)[a]).0@ == es[i].0@;
        assert(es.take(i)[a] == es[a]);
    }
}

/// Appending a member with a new key inserts it into the map.
pub proof fn lemma_push_member(es: Seq<(String, Json)>, e: (String, Json))
    requires
        keys_unique(es),
        !fields_of(es).dom().contains(e.0@),
    ensures
        keys_unique(es.push(e)),
        fields_of(es.push(e)) == fields_of(es).insert(e.0@, tree_of(e.1)),
{
    lemma_fields_of(es);
    let r = es.push(e);
    assert(r.drop_last() == es);
    assert forall|a: int, b: int|
        0 <= a < r.len() && 0 <= b < r.len() && a != b implies r[a].0@ != r[b].0@ by {
        if a < es.len() {
            assert(r[a] == es[a]);
        }
        if b < es.len() {
            assert(r[b] == es[b]);
        }
    }
}

/// An element of an array is smaller than the array.
pub proof fn lemma_element_decreases(j: Json, i: int)
    requires
        j is Array,
        0 <= i < j->Array_0.len(),
    ensures
        decreases_to!(j => j->Array_0[i]),
{
    vstd::std_specs::vec::axiom_vec_index_decreases(j->Array_0, i);
    assert(decreases_to!(j => j->Array_0));
}

/// A member's value is smaller than the object that holds it.
pub proof fn lemma_member_decreases(j: Json, i: int)
    requires
        j is Object,
        0 <= i < j->Object_0.len(),
    ensures
        decreases_to!(j => j->Object_0[i].1),
{
    vstd::std_specs::vec::axiom_vec_index_decreases(j->Object_0, i);
    assert(decreases_to!(j => j->Object_0));
    assert(decreases_to!(j->Object_0[i] => j->Object_0[i].1));
}

/// The position of the last member of `es` whose key is `key`.
pub fn find_key(es: &Vec<(String, Json)>, key: &String) -> (r: Option<usize>)
    ensures
        match r {
            Some(i) => i < es.len() && es@[i as int].0@ == key@ && forall|j: int|
                i < j < es.len() ==> es@[j].0@ != key@,
            None => forall|j: int| 0 <= j < es.len() ==> es@[j].0@ != key@,
        },
{
    let mut i: usize = es.len();
    while i > 0
        invariant
            i <= es.len(),
            forall|j: int| i <= j < es.len() ==> es@[j].0@ != key@,
        decreases i,
    {
        i = i - 1;
        if es[i].0 == *key {
            return Some(i);
        }
    }
    None
}

impl Json {
    /// An object with no members.
    pub fn new_object() -> (r: Json)
        ensures
            r.wf(),
            r@ == Tree::Object(Map::empty()),
    {
        let r = Json::Object(Vec::new());
        proof {
            assert(fields_of(Seq::<(String, Json)>::empty()) == Map::<Seq<char>, Tree>::empty());
        }
        r
    }

    /// A copy of the whole tree.
    pub fn deep_clone(&self) -> (r: Json)
        ensures
            r@ == self@,
            self.wf() ==> r.wf(),
        decreases self,
    {
        match self {
            Json::Null => Json::Null,
            Json::Bool(b) => Json::Bool(*b),
            Json::Number(n) => Json::Number(*n),
            Json::String(s) => Json::String(s.clone()),
            Json::Array(v) => {
                let mut out: Vec<Json> = Vec::new();
                let mut i: usize = 0;
                while i < v.len()
                    invariant
                        *self == Json::Array(*v),
                        i <= v.len(),
                        out.len() == i,
                        forall|j: int| 0 <= j < i ==> tree_of(#[trigger] out@[j]) == tree_of(v@[j]),
                        forall|j: int| 0 <= j < i ==> wf(v@[j]) ==> wf(#[trigger] out@[j]),
                    decreases v.len() - i,
                {
                    proof {
                        lemma_element_decreases(*self, i as int);
                    }
                    let c = v[i].deep_clone();
                    out.push(c);
                    i = i + 1;
                }
                proof {
                    lemma_trees_of(out@);
                    lemma_trees_of(v@);
                    assert(trees_of(out@) == trees_of(v@));
                }
                Json::Array(out)
            },
            Json::Object(es) => {
                let mut out: Vec<(String, Json)> = Vec::new();
                let mut i: usize = 0;
                while i < es.len()
                    invariant
                        *self == Json::Object(*es),
                        i <= es.len(),
                        out.len() == i,
                        forall|j: int|
                            0 <= j < i ==> (#[trigger] out@[j]).0@ == es@[j].0@ && tree_of(out@[j].1)
                                == tree_of(es@[j].1),
                        forall|j: int| 0 <= j < i ==> wf(es@[j].1) ==> wf(#[trigger] out@[j].1),
                    decreases es.len() - i,
                {
                    let k = es[i].0.clone();
                    proof {
                        lemma_member_decreases(*self, i as int);
                    }
                    let c = es[i].1.deep_clone();
                    out.push((k, c));
                    i = i + 1;
                }
                proof {
                    lemma_fields_of_pointwise(out@, es@);
                }
                Json::Object(out)
            },
        }
    }
}

/// Whether two trees have the same value; the order of an object's members
/// does not matter.
pub fn json_eq(a: &Json, b: &Json) -> (r: bool)
    ensures
        r == (a@ == b@),
    decreases a,
{
    match (a, b) {
        (Json::Null, Json::Null) => true,
        (Json::Bool(x), Json::Bool(y)) => *x == *y,
        (Json::Number(x), Json::Number(y)) => *x == *y,
        (Json::String(x), Json::String(y)) => *x == *y,
        (Json::Array(va), Json::Array(vb)) => {
            proof {
                lemma_trees_of(va@);
                lemma_trees_of(vb@);
            }
            if va.len() != vb.len() {
                proof {
                    assert(a@ == Tree::Array(trees_of(va@)));
                    assert(b@ == Tree::Array(trees_of(vb@)));
                }
                return false;
            }
            let mut i: usize = 0;
            while i < va.len()
                invariant
                    *a == Json::Array(*va),
                    *b == Json::Array(*vb),
                    i <= va.len(),
                    va.len() == vb.len(),
                    trees_of(va@).len() == va.len(),
                    trees_of(vb@).len() == vb.len(),
                    forall|k: int| 0 <= k < va.len() ==> #[trigger] trees_of(va@)[k] == tree_of(va@[k]),
                    forall|k: int| 0 <= k < vb.len() ==> #[trigger] trees_of(vb@)[k] == tree_of(vb@[k]),
                    forall|k: int| 0 <= k < i ==> tree_of(#[trigger] va@[k]) == tree_of(vb@[k]),
                decreases va.len() - i,
            {
                proof {
                    lemma_element_decreases(*a, i as int);
                }
                if !json_eq(&va[i], &vb[i]) {
                    proof {
                        assert(trees_of(va@)[i as int] != trees_of(vb@)[i as int]);
                        assert(a@ == Tree::Array(trees_of(va@)));
                        assert(b@ == Tree::Array(trees_of(vb@)));
                    }
                    return false;
                }
                i = i + 1;
            }
            proof {
                assert(trees_of(va@) == trees_of(vb@));
            }
            true
        },
        (Json::Object(ea), Json::Object(eb)) => {
            proof {
                lemma_fields_of(ea@);
                lemma_fields_of(eb@);
            }
            let ghost ma = fields_of(ea@);
            let ghost mb = fields_of(eb@);
            let mut i: usize = 0;
            while i < ea.len()
                invariant
                    *a == Json::Object(*ea),
                    *b == Json::Object(*eb),
                    i <= ea.len(),
                    ma == fields_of(ea@),
                    mb == fields_of(eb@),
                    forall|k: Seq<char>|
                        #[trigger] ma.dom().contains(k) <==> exists|j: int|
                            0 <= j < ea.len() && (#[trigger] ea@[j]).0@ == k,
                    forall|j: int|
                        0 <= j < ea.len() && (forall|l: int| j < l < ea.len() ==> ea@[l].0@ != ea@[j].0@)
                            ==> ma[(#[trigger] ea@[j]).0@] == tree_of(ea@[j].1),
                    forall|k: Seq<char>|
                        #[trigger] mb.dom().contains(k) <==> exists|j: int|
                            0 <= j < eb.len() && (#[trigger] eb@[j]).0@ == k,
                    forall|j: int|
                        0 <= j < eb.len() && (forall|l: int| j < l < eb.len() ==> eb@[l].0@ != eb@[j].0@)
                            ==> mb[(#[trigger] eb@[j]).0@] == tree_of(eb@[j].1),
                    forall|j: int|
                        0 <= j < i ==> mb.dom().contains((#[trigger] ea@[j]).0@) && ma[ea@[j].0@]
                            == mb[ea@[j].0@],
                decreases ea.len() - i,
            {
                let key = &ea[i].0;
                let ia = find_key(ea, key);
                let ia = match ia {
                    Some(x) => x,
                    None => {
                        proof {
                            assert(false);
                        }
                        i
                    },
                };
                assert(ea@[ia as int] == ea@[ia as int]);
                match find_key(eb, key) {
                    None => {
                        proof {
                            assert(ma.dom().contains(key@));
                            assert(!mb.dom().contains(key@));
                            assert(a@ == Tree::Object(ma));
                            assert(b@ == Tree::Object(mb));
                        }
                        return false;
                    },
                    Some(ib) => {
                        assert(eb@[ib as int] == eb@[ib as int]);
                        proof {
                            lemma_member_decreases(*a, ia as int);
                        }
                        if !json_eq(&ea[ia].1, &eb[ib].1) {
                            proof {
                                assert(ma[key@] != mb[key@]);
                                assert(a@ == Tree::Object(ma));
                                assert(b@ == Tree::Object(mb));
                            }
                            return false;
                        }
                    },
                }
                i = i + 1;
            }
            let mut i: usize = 0;
            while i < eb.len()
                invariant
                    *a == Json::Object(*ea),
                    *b == Json::Object(*eb),
                    ma == fields_of(ea@),
                    mb == fields_of(eb@),
                    i <= eb.len(),
                    forall|k: Seq<char>|
                        #[trigger] ma.dom().contains(k) <==> exists|j: int|
                            0 <= j < ea.len() && (#[trigger] ea@[j]).0@ == k,
                    forall|k: Seq<char>|
                        #[trigger] mb.dom().contains(k) <==> exists|j: int|
                            0 <= j < eb.len() && (#[trigger] eb@[j]).0@ == k,
                    forall|j: int| 0 <= j < i ==> ma.dom().contains((#[trigger] eb@[j]).0@),
                decreases eb.len() - i,
            {
                match find_key(ea, &eb[i].0) {
                    None => {
                        proof {
                            assert(mb.dom().contains(eb@[i as int].0@));
                            assert(!ma.dom().contains(eb@[i as int].0@));
                            assert(a@ == Tree::Object(ma));
                            assert(b@ == Tree::Object(mb));
                        }
                        return false;
                    },
                    Some(ia) => {
                        assert(ea@[ia as int] == ea@[ia as int]);
                    },
                }
                i = i + 1;
            }
            proof {
                assert forall|k: Seq<char>| #[trigger] ma.dom().contains(k) implies mb.dom().contains(k) && ma[k] == mb[k] by {
                    let j = choose|j: int| 0 <= j < ea.len() && (#[trigger] ea@[j]).0@ == k;
                }
                assert forall|k: Seq<char>| #[trigger] mb.dom().contains(k) implies ma.dom().contains(k) by {
                    let j = choose|j: int| 0 <= j < eb.len() && (#[trigger] eb@[j]).0@ == k;
                }
                assert(ma == mb);
            }
            true
        },
        _ => false,
    }
}

impl PartialEq for Json {
    fn eq(&self, other: &Json) -> (r: bool) {
        json_eq(self, other)
    }
}

impl vstd::std_specs::cmp::PartialEqSpecImpl for Json {
    open spec fn obeys_eq_spec() -> bool {
        true
    }

    open spec fn eq_spec(&self, other: &Json) -> bool {
        self@ == other@
    }
}

} // verus!
