use vstd::prelude::*;

use crate::tree::Tree;
use crate::tree::lookup;
use crate::tree::key_lt;
use crate::tree::sorted_keys;
use crate::tree::tree_wf;
use crate::tree::lemma_key_lt_trans;
use crate::tree::lemma_key_lt_irrefl;
use crate::tree::lemma_key_lt_trichotomy;
use crate::tree::lemma_lookup_index;
use crate::plan::status_key;
use crate::plan::status_text;
use crate::plan::value_key;
use crate::plan::old_value_key;
use crate::plan::Status;
use crate::plan::mk_plan;
use crate::plan::parse_plan;
use crate::plan::lemma_parse_mk_plan;
use crate::builder::identity_of;
use crate::builder::last_with_id;
use crate::builder::scaffold_spec;
use crate::builder::scaffold_fields;
use crate::builder::scaffold_items;
use crate::builder::build_spec;
use crate::builder::build_scalar;
use crate::builder::build_fields;
use crate::builder::build_items_a;
use crate::builder::build_items_b;
use crate::applier::apply_spec;
use crate::applier::apply_fields;
use crate::applier::apply_items;

verus! {

/// A scaffold with any status but `Delete` applies back to the value it was
/// built over.
pub proof fn lemma_scaffold_apply(v: Tree, st: Status)
    requires
        st != Status::Delete,
    ensures
        apply_spec(scaffold_spec(v, st)) == Option::Some(v),
    decreases v, 0nat,
{
    match v {
        Tree::Object(fs) => {
            lemma_parse_mk_plan(st, Tree::Object(scaffold_fields(fs, st)), Option::None);
            lemma_scaffold_fields_apply(fs, st);
        },
        Tree::Array(items) => {
            lemma_parse_mk_plan(st, Tree::Array(scaffold_items(items, st)), Option::None);
            lemma_scaffold_items_apply(items, st);
        },
        _ => {
            lemma_parse_mk_plan(st, v, Option::None);
        },
    }
}

proof fn lemma_scaffold_fields_apply(fs: Seq<(Seq<char>, Tree)>, st: Status)
    requires
        st != Status::Delete,
    ensures
        apply_fields(scaffold_fields(fs, st)) == fs,
    decreases fs, 1nat,
{
    if fs.len() == 0 {
    } else {
        let sub = fs.subrange(1, fs.len() as int);
        let head = (fs[0].0, scaffold_spec(fs[0].1, st));
        lemma_scaffold_apply(fs[0].1, st);
        lemma_scaffold_fields_apply(sub, st);
        let sf = seq![head] + scaffold_fields(sub, st);
        assert(sf[0] == head);
        assert(sf.subrange(1, sf.len() as int) =~= scaffold_fields(sub, st));
        assert(apply_fields(scaffold_fields(fs, st)) =~= fs);
    }
}

proof fn lemma_scaffold_items_apply(items: Seq<Tree>, st: Status)
    requires
        st != Status::Delete,
    ensures
        apply_items(scaffold_items(items, st)) == items,
    decreases items, 1nat,
{
    if items.len() == 0 {
    } else {
        let sub = items.subrange(1, items.len() as int);
        let head = scaffold_spec(items[0], st);
        lemma_scaffold_apply(items[0], st);
        lemma_scaffold_items_apply(sub, st);
        let si = seq![head] + scaffold_items(sub, st);
        assert(si[0] == head);
        assert(si.subrange(1, si.len() as int) =~= scaffold_items(sub, st));
        assert(apply_items(scaffold_items(items, st)) =~= items);
    }
}

/// A scaffold whose status is `Delete` resolves to absent as a whole.
pub proof fn lemma_scaffold_delete(v: Tree)
    ensures
        apply_spec(scaffold_spec(v, Status::Delete)) == Option::<Tree>::None,
{
    match v {
        Tree::Object(fs) => {
            lemma_parse_mk_plan(
                Status::Delete,
                Tree::Object(scaffold_fields(fs, Status::Delete)),
                Option::None,
            );
        },
        Tree::Array(items) => {
            lemma_parse_mk_plan(
                Status::Delete,
                Tree::Array(scaffold_items(items, Status::Delete)),
                Option::None,
            );
        },
        _ => {
            lemma_parse_mk_plan(Status::Delete, v, Option::None);
        },
    }
}

/// The arrays of `t` that the builder's keep branch matches back to
/// themselves: every element resolves to an identity and no identity repeats
/// within one array, recursively.
pub open spec fn keep_faithful(t: Tree, ik: Seq<Seq<char>>) -> bool
    decreases t,
{
    match t {
        Tree::Object(fs) => forall|i: int|
            0 <= i < fs.len() ==> keep_faithful(#[trigger] fs[i].1, ik),
        Tree::Array(items) => {
            &&& forall|i: int|
                0 <= i < items.len() ==> identity_of(#[trigger] items[i], ik) is Some
            &&& forall|i: int, j: int|
                0 <= i < j < items.len() ==> identity_of(items[i], ik) != identity_of(
                    items[j],
                    ik,
                )
            &&& forall|i: int| 0 <= i < items.len() ==> keep_faithful(#[trigger] items[i], ik)
        },
        _ => true,
    }
}

/// In an array of pairwise distinct identities, an element's own identity
/// finds exactly that element.
proof fn lemma_last_with_id_self(items: Seq<Tree>, k: int, ik: Seq<Seq<char>>)
    requires
        0 <= k < items.len(),
        forall|i: int| 0 <= i < items.len() ==> identity_of(#[trigger] items[i], ik) is Some,
        forall|i: int, j: int|
            0 <= i < j < items.len() ==> identity_of(items[i], ik) != identity_of(items[j], ik),
    ensures
        last_with_id(items, identity_of(items[k], ik)->Some_0, ik) == Option::Some(items[k]),
    decreases items.len(),
{
    let id = identity_of(items[k], ik)->Some_0;
    if k == items.len() - 1 {
        assert(items.last() == items[k]);
    } else {
        assert(identity_of(items.last(), ik) != identity_of(items[k], ik));
        let sub = items.drop_last();
        assert(sub =~= items.subrange(0, items.len() - 1));
        assert(forall|i: int| 0 <= i < sub.len() ==> sub[i] == items[i]);
        lemma_last_with_id_self(sub, k, ik);
    }
}

/// Building a tree against itself and applying the plan returns the tree:
/// kept content survives a round trip untouched. This holds of trees whose
/// arrays the identity rule matches back to themselves (see
/// [`keep_faithful`]); an array element without identity would instead be
/// kept once and added once more.
pub proof fn lemma_apply_build_self(a: Tree, ik: Seq<Seq<char>>)
    requires
        keep_faithful(a, ik),
    ensures
        apply_spec(build_spec(a, a, ik)) == Option::Some(a),
    decreases a, 0nat,
{
    match a {
        Tree::Object(fs) => {
            lemma_parse_mk_plan(Status::Merge, Tree::Object(build_fields(fs, fs, ik)), Option::None);
            lemma_build_fields_self_apply(fs, ik);
        },
        Tree::Array(es) => {
            let all = build_items_a(es, es, ik) + build_items_b(es, es, ik);
            lemma_parse_mk_plan(Status::Merge, Tree::Array(all), Option::None);
            assert(es.subrange(0, es.len() as int) =~= es);
            lemma_build_items_b_self_empty(es, 0, ik);
            assert(all =~= build_items_a(es, es, ik));
            lemma_build_items_a_self_apply(es, 0, ik);
        },
        _ => {
            lemma_parse_mk_plan(Status::Keep, a, Option::None);
        },
    }
}

proof fn lemma_build_fields_self_apply(fs: Seq<(Seq<char>, Tree)>, ik: Seq<Seq<char>>)
    requires
        forall|i: int| 0 <= i < fs.len() ==> keep_faithful(#[trigger] fs[i].1, ik),
    ensures
        apply_fields(build_fields(fs, fs, ik)) == fs,
    decreases fs, 1nat,
{
    if fs.len() == 0 {
    } else {
        let sub = fs.subrange(1, fs.len() as int);
        let head = (fs[0].0, build_spec(fs[0].1, fs[0].1, ik));
        lemma_apply_build_self(fs[0].1, ik);
        lemma_build_fields_self_apply(sub, ik);
        let bf = seq![head] + build_fields(sub, sub, ik);
        assert(bf[0] == head);
        assert(bf.subrange(1, bf.len() as int) =~= build_fields(sub, sub, ik));
        assert(apply_fields(build_fields(fs, fs, ik)) =~= fs);
    }
}

proof fn lemma_build_items_a_self_apply(es: Seq<Tree>, k: int, ik: Seq<Seq<char>>)
    requires
        0 <= k <= es.len(),
        forall|i: int| 0 <= i < es.len() ==> identity_of(#[trigger] es[i], ik) is Some,
        forall|i: int, j: int|
            0 <= i < j < es.len() ==> identity_of(es[i], ik) != identity_of(es[j], ik),
        forall|i: int| 0 <= i < es.len() ==> keep_faithful(#[trigger] es[i], ik),
    ensures
        apply_items(build_items_a(es.subrange(k, es.len() as int), es, ik)) == es.subrange(
            k,
            es.len() as int,
        ),
    decreases es, es.len() - k,
{
    let t = es.subrange(k, es.len() as int);
    if k == es.len() {
        assert(t.len() == 0);
    } else {
        assert(t[0] == es[k]);
        lemma_last_with_id_self(es, k, ik);
        lemma_apply_build_self(es[k], ik);
        lemma_build_items_a_self_apply(es, k + 1, ik);
        assert(t.subrange(1, t.len() as int) =~= es.subrange(k + 1, es.len() as int));
        let head = build_spec(es[k], es[k], ik);
        let ba = seq![head] + build_items_a(es.subrange(k + 1, es.len() as int), es, ik);
        assert(ba[0] == head);
        assert(ba.subrange(1, ba.len() as int) =~= build_items_a(
            es.subrange(k + 1, es.len() as int),
            es,
            ik,
        ));
        assert(apply_items(build_items_a(t, es, ik)) =~= t);
    }
}

proof fn lemma_build_items_b_self_empty(es: Seq<Tree>, j: int, ik: Seq<Seq<char>>)
    requires
        0 <= j <= es.len(),
        forall|i: int| 0 <= i < es.len() ==> identity_of(#[trigger] es[i], ik) is Some,
        forall|i: int, jj: int|
            0 <= i < jj < es.len() ==> identity_of(es[i], ik) != identity_of(es[jj], ik),
    ensures
        build_items_b(es, es.subrange(j, es.len() as int), ik) == Seq::<Tree>::empty(),
    decreases es.len() - j,
{
    let t = es.subrange(j, es.len() as int);
    if j == es.len() {
        assert(t.len() == 0);
    } else {
        assert(t[0] == es[j]);
        lemma_last_with_id_self(es, j, ik);
        lemma_build_items_b_self_empty(es, j + 1, ik);
        assert(t.subrange(1, t.len() as int) =~= es.subrange(j + 1, es.len() as int));
    }
}

/// A value that is no serialized plan node passes through application
/// unchanged.
pub proof fn lemma_literal_passthrough(p: Tree)
    requires
        parse_plan(p) is None,
    ensures
        apply_spec(p) == Option::Some(p),
{
}

/// A node whose status reads `delete` resolves to absent, whatever its value.
pub proof fn lemma_delete_is_absent(p: Tree)
    requires
        parse_plan(p) is Some,
        parse_plan(p)->Some_0.0 == Status::Delete,
    ensures
        apply_spec(p) == Option::<Tree>::None,
{
}

/// Applying plan fields never invents a key: a key held by none of the plan's
/// fields is held by none of the applied fields.
proof fn lemma_apply_fields_no_key(fs: Seq<(Seq<char>, Tree)>, k: Seq<char>)
    requires
        forall|i: int| 0 <= i < fs.len() ==> (#[trigger] fs[i].0) != k,
    ensures
        forall|j: int| 0 <= j < apply_fields(fs).len() ==> (#[trigger] apply_fields(fs)[j].0) != k,
    decreases fs.len(),
{
    if fs.len() > 0 {
        let sub = fs.subrange(1, fs.len() as int);
        lemma_apply_fields_no_key(sub, k);
        match apply_spec(fs[0].1) {
            Option::Some(r) => {
                let res = seq![(fs[0].0, r)] + apply_fields(sub);
                assert(forall|j: int| 1 <= j < res.len() ==> res[j] == apply_fields(sub)[j - 1]);
            },
            Option::None => {},
        }
    }
}

/// Manual deletion: marking one field's plan node `delete` omits that key
/// entirely from the applied object.
pub proof fn lemma_delete_removes_key(fs: Seq<(Seq<char>, Tree)>, d: int)
    requires
        0 <= d < fs.len(),
        forall|a: int, b: int| 0 <= a < b < fs.len() ==> fs[a].0 != fs[b].0,
        parse_plan(fs[d].1) is Some,
        parse_plan(fs[d].1)->Some_0.0 == Status::Delete,
    ensures
        forall|j: int| 0 <= j < apply_fields(fs).len() ==> (#[trigger] apply_fields(fs)[j].0)
            != fs[d].0,
    decreases fs.len(),
{
    let sub = fs.subrange(1, fs.len() as int);
    if d == 0 {
        lemma_delete_is_absent(fs[0].1);
        lemma_apply_fields_no_key(sub, fs[0].0);
    } else {
        lemma_delete_removes_key(sub, d - 1);
        assert(sub[d - 1] == fs[d]);
        match apply_spec(fs[0].1) {
            Option::Some(r) => {
                let res = seq![(fs[0].0, r)] + apply_fields(sub);
                assert(forall|j: int| 1 <= j < res.len() ==> res[j] == apply_fields(sub)[j - 1]);
            },
            Option::None => {},
        }
    }
}

/// Building an object against itself classifies field by field: the plan's
/// fields carry the object's own keys in the object's own order.
proof fn lemma_build_fields_self_keys(fs: Seq<(Seq<char>, Tree)>, ik: Seq<Seq<char>>)
    ensures
        build_fields(fs, fs, ik).len() == fs.len(),
        forall|i: int| 0 <= i < fs.len() ==> (#[trigger] build_fields(fs, fs, ik)[i].0)
            == fs[i].0,
    decreases fs.len(),
{
    if fs.len() > 0 {
        let sub = fs.subrange(1, fs.len() as int);
        lemma_build_fields_self_keys(sub, ik);
        let head = (fs[0].0, build_spec(fs[0].1, fs[0].1, ik));
        let bf = seq![head] + build_fields(sub, sub, ik);
        assert(forall|i: int| 1 <= i < bf.len() ==> bf[i] == build_fields(sub, sub, ik)[i - 1]);
    }
}

/// Inserting one new field at position `p` of the second object makes the
/// builder walk the shared fields pairwise and emit an `Add` scaffold for the
/// new field exactly between them.
proof fn lemma_build_fields_insert(
    f: Seq<(Seq<char>, Tree)>,
    p: int,
    k: Seq<char>,
    v: Tree,
    ik: Seq<Seq<char>>,
)
    requires
        0 <= p <= f.len(),
        p < f.len() ==> key_lt(k, f[p].0),
        forall|i: int| 0 <= i < f.len() ==> (#[trigger] f[i].0) != k,
    ensures
        build_fields(f, f.subrange(0, p) + seq![(k, v)] + f.subrange(p, f.len() as int), ik)
            == build_fields(f.subrange(0, p), f.subrange(0, p), ik) + seq![
            (k, scaffold_spec(v, Status::Add)),
        ] + build_fields(f.subrange(p, f.len() as int), f.subrange(p, f.len() as int), ik),
    decreases p,
{
    let b2 = f.subrange(0, p) + seq![(k, v)] + f.subrange(p, f.len() as int);
    if p == 0 {
        assert(f.subrange(0, 0) =~= Seq::<(Seq<char>, Tree)>::empty());
        assert(f.subrange(0, f.len() as int) =~= f);
        assert(b2 =~= seq![(k, v)] + f);
        assert(build_fields(f.subrange(0, 0), f.subrange(0, 0), ik) == Seq::<(
            Seq<char>,
            Tree,
        )>::empty());
        if f.len() == 0 {
            assert(b2 =~= seq![(k, v)]);
            assert(b2.subrange(1, 1) =~= Seq::<(Seq<char>, Tree)>::empty());
            assert(scaffold_fields(b2.subrange(1, 1), Status::Add) == Seq::<(
                Seq<char>,
                Tree,
            )>::empty());
            assert(build_fields(f, b2, ik) =~= seq![(k, scaffold_spec(v, Status::Add))]);
        } else {
            // The new key sorts before the first shared key, so the builder
            // adds it and then walks the shared fields pairwise.
            lemma_key_lt_irrefl(f[0].0);
            if key_lt(f[0].0, k) {
                lemma_key_lt_trans(f[0].0, k, f[0].0);
            }
            assert(b2[0] == (k, v));
            assert(b2.subrange(1, b2.len() as int) =~= f);
            assert(build_fields(f, b2, ik) == seq![(k, scaffold_spec(v, Status::Add))]
                + build_fields(f, f, ik));
        }
        assert(build_fields(f, b2, ik) =~= build_fields(f.subrange(0, 0), f.subrange(0, 0), ik)
            + seq![(k, scaffold_spec(v, Status::Add))] + build_fields(
            f.subrange(0, f.len() as int),
            f.subrange(0, f.len() as int),
            ik,
        ));
    } else {
        let fsub = f.subrange(1, f.len() as int);
        assert(forall|i: int| 0 <= i < fsub.len() ==> #[trigger] fsub[i] == f[i + 1]);
        assert(b2[0] == f[0]);
        assert(b2.subrange(1, b2.len() as int) =~= fsub.subrange(0, p - 1) + seq![(k, v)]
            + fsub.subrange(p - 1, fsub.len() as int));
        lemma_build_fields_insert(fsub, p - 1, k, v, ik);
        let head = (f[0].0, build_spec(f[0].1, f[0].1, ik));
        // The head node of the walk over the prefix of shared fields.
        let fpre = f.subrange(0, p);
        assert(fpre[0] == f[0]);
        assert(fpre.subrange(1, fpre.len() as int) =~= fsub.subrange(0, p - 1));
        assert(f.subrange(p, f.len() as int) =~= fsub.subrange(p - 1, fsub.len() as int));
        assert(build_fields(fpre, fpre, ik) == seq![head] + build_fields(
            fsub.subrange(0, p - 1),
            fsub.subrange(0, p - 1),
            ik,
        ));
        assert(build_fields(f, b2, ik) =~= build_fields(fpre, fpre, ik) + seq![
            (k, scaffold_spec(v, Status::Add)),
        ] + build_fields(
            f.subrange(p, f.len() as int),
            f.subrange(p, f.len() as int),
            ik,
        ));
    }
}

/// Application distributes over concatenated plan fields.
proof fn lemma_apply_fields_concat(s1: Seq<(Seq<char>, Tree)>, s2: Seq<(Seq<char>, Tree)>)
    ensures
        apply_fields(s1 + s2) == apply_fields(s1) + apply_fields(s2),
    decreases s1.len(),
{
    if s1.len() == 0 {
        assert(s1 + s2 =~= s2);
        assert(apply_fields(s1) + apply_fields(s2) =~= apply_fields(s2));
    } else {
        let sub = s1.subrange(1, s1.len() as int);
        assert((s1 + s2)[0] == s1[0]);
        assert((s1 + s2).subrange(1, (s1 + s2).len() as int) =~= sub + s2);
        lemma_apply_fields_concat(sub, s2);
        match apply_spec(s1[0].1) {
            Option::Some(r) => {
                assert(seq![(s1[0].0, r)] + (apply_fields(sub) + apply_fields(s2)) =~= (seq![
                    (s1[0].0, r),
                ] + apply_fields(sub)) + apply_fields(s2));
            },
            Option::None => {},
        }
    }
}

/// A key absent from the first fields is looked up in the second.
proof fn lemma_lookup_skip(s1: Seq<(Seq<char>, Tree)>, s2: Seq<(Seq<char>, Tree)>, k: Seq<char>)
    requires
        forall|i: int| 0 <= i < s1.len() ==> (#[trigger] s1[i].0) != k,
    ensures
        lookup(s1 + s2, k) == lookup(s2, k),
    decreases s1.len(),
{
    if s1.len() == 0 {
        assert(s1 + s2 =~= s2);
    } else {
        let sub = s1.subrange(1, s1.len() as int);
        assert((s1 + s2)[0] == s1[0]);
        assert((s1 + s2).subrange(1, (s1 + s2).len() as int) =~= sub + s2);
        lemma_lookup_skip(sub, s2, k);
    }
}

/// Round trip on pure addition: a second document that is the first with one
/// new object key inserted (at any position `p` that keeps the new key below
/// the following one) yields a plan whose node for that key is an `Add`
/// scaffold, and applying the plan reproduces the extended object. As in
/// [`lemma_apply_build_self`], the shared fields must be matched back to
/// themselves faithfully.
pub proof fn lemma_round_trip_addition(
    f: Seq<(Seq<char>, Tree)>,
    p: int,
    k: Seq<char>,
    v: Tree,
    ik: Seq<Seq<char>>,
)
    requires
        keep_faithful(Tree::Object(f), ik),
        0 <= p <= f.len(),
        p < f.len() ==> key_lt(k, f[p].0),
        forall|i: int| 0 <= i < f.len() ==> (#[trigger] f[i].0) != k,
    ensures
        ({
            let b = Tree::Object(f.subrange(0, p) + seq![(k, v)] + f.subrange(p, f.len() as int));
            let plan = build_spec(Tree::Object(f), b, ik);
            &&& parse_plan(plan) is Some
            &&& parse_plan(plan)->Some_0.0 == Status::Merge
            &&& lookup(parse_plan(plan)->Some_0.1->Object_0, k) == Option::Some(
                scaffold_spec(v, Status::Add),
            )
            &&& apply_spec(plan) == Option::Some(b)
        }),
{
    let fpre = f.subrange(0, p);
    let fpost = f.subrange(p, f.len() as int);
    let one = seq![(k, v)];
    assert(forall|i: int| 0 <= i < fpre.len() ==> #[trigger] fpre[i] == f[i]);
    assert(forall|i: int| 0 <= i < fpost.len() ==> #[trigger] fpost[i] == f[i + p]);
    lemma_build_fields_insert(f, p, k, v, ik);
    let bf1 = build_fields(fpre, fpre, ik);
    let bf2 = build_fields(fpost, fpost, ik);
    let sc = seq![(k, scaffold_spec(v, Status::Add))];
    let plan_fields = bf1 + sc + bf2;
    lemma_parse_mk_plan(Status::Merge, Tree::Object(plan_fields), Option::None);

    // The new key's plan node is the Add scaffold: the per-key nodes before it
    // carry the shared keys, all different from the new key.
    lemma_build_fields_self_keys(fpre, ik);
    assert(forall|i: int| 0 <= i < bf1.len() ==> (#[trigger] bf1[i].0) != k);
    assert(plan_fields =~= bf1 + (sc + bf2));
    lemma_lookup_skip(bf1, sc + bf2, k);
    assert((sc + bf2)[0] == (k, scaffold_spec(v, Status::Add)));

    // Applying the plan reproduces the extended object.
    lemma_apply_fields_concat(bf1, sc + bf2);
    lemma_apply_fields_concat(sc, bf2);
    lemma_build_fields_self_apply(fpre, ik);
    lemma_build_fields_self_apply(fpost, ik);
    lemma_scaffold_apply(v, Status::Add);
    assert(sc[0] == (k, scaffold_spec(v, Status::Add)));
    assert(sc.subrange(1, sc.len() as int) =~= Seq::<(Seq<char>, Tree)>::empty());
    assert(apply_fields(sc.subrange(1, sc.len() as int)) == Seq::<(Seq<char>, Tree)>::empty());
    assert(apply_fields(sc) =~= one);
    assert(apply_fields(plan_fields) =~= fpre + one + fpost);
}

/// Building is a function of its inputs: two plans built from the same
/// documents and identity keys are the same tree, so their serialized forms
/// are byte-identical.
pub proof fn lemma_build_deterministic(
    a: Tree,
    b: Tree,
    ik: Seq<Seq<char>>,
    r1: Tree,
    r2: Tree,
)
    requires
        r1 == build_spec(a, b, ik),
        r2 == build_spec(a, b, ik),
    ensures
        r1 == r2,
{
}

/// The three field keys of a serialized plan node are strictly ascending.
proof fn lemma_plan_keys_sorted()
    ensures
        key_lt(old_value_key(), status_key()),
        key_lt(status_key(), value_key()),
        key_lt(old_value_key(), value_key()),
{
    reveal_strlit("_old_value");
    reveal_strlit("_status");
    reveal_strlit("_value");
    let o = old_value_key();
    let s = status_key();
    let v = value_key();
    assert(o.subrange(1, 10)[0] == 'o');
    assert(s.subrange(1, 7)[0] == 's');
    assert(v.subrange(1, 6)[0] == 'v');
    assert(key_lt(o.subrange(1, 10), s.subrange(1, 7)));
    assert(key_lt(o, s));
    assert(key_lt(s.subrange(1, 7), v.subrange(1, 6)));
    assert(key_lt(s, v));
    lemma_key_lt_trans(o, s, v);
}

/// A freshly serialized plan node is well-formed when its value and prior
/// value are.
proof fn lemma_mk_plan_wf(st: Status, v: Tree, old: Option<Tree>)
    requires
        tree_wf(v),
        old is Some ==> tree_wf(old->Some_0),
    ensures
        tree_wf(mk_plan(st, v, old)),
{
    lemma_plan_keys_sorted();
    let fs = mk_plan(st, v, old)->Object_0;
    assert(sorted_keys(fs));
    assert forall|i: int| 0 <= i < fs.len() implies tree_wf(#[trigger] fs[i].1) by {
        match old {
            Option::None => {
                assert(fs[0].1 == Tree::Text(status_text(st)));
                assert(fs[1].1 == v);
            },
            Option::Some(o) => {
                assert(fs[0].1 == o);
                assert(fs[1].1 == Tree::Text(status_text(st)));
                assert(fs[2].1 == v);
            },
        }
    }
}

proof fn lemma_scaffold_fields_shape(fs: Seq<(Seq<char>, Tree)>, st: Status)
    ensures
        scaffold_fields(fs, st).len() == fs.len(),
        forall|i: int| 0 <= i < fs.len() ==> #[trigger] scaffold_fields(fs, st)[i] == (
            fs[i].0,
            scaffold_spec(fs[i].1, st),
        ),
    decreases fs.len(),
{
    if fs.len() > 0 {
        let sub = fs.subrange(1, fs.len() as int);
        lemma_scaffold_fields_shape(sub, st);
        let res = seq![(fs[0].0, scaffold_spec(fs[0].1, st))] + scaffold_fields(sub, st);
        assert(forall|i: int| 1 <= i < res.len() ==> res[i] == scaffold_fields(sub, st)[i - 1]);
    }
}

proof fn lemma_scaffold_items_shape(items: Seq<Tree>, st: Status)
    ensures
        scaffold_items(items, st).len() == items.len(),
        forall|i: int| 0 <= i < items.len() ==> #[trigger] scaffold_items(items, st)[i]
            == scaffold_spec(items[i], st),
    decreases items.len(),
{
    if items.len() > 0 {
        let sub = items.subrange(1, items.len() as int);
        lemma_scaffold_items_shape(sub, st);
        let res = seq![scaffold_spec(items[0], st)] + scaffold_items(sub, st);
        assert(forall|i: int| 1 <= i < res.len() ==> res[i] == scaffold_items(sub, st)[i - 1]);
    }
}

/// Scaffolding a well-formed value yields a well-formed plan tree: field
/// order is untouched and every wrapper's keys are ascending.
pub proof fn lemma_scaffold_wf(v: Tree, st: Status)
    requires
        tree_wf(v),
    ensures
        tree_wf(scaffold_spec(v, st)),
    decreases v,
{
    match v {
        Tree::Object(fs) => {
            lemma_scaffold_fields_shape(fs, st);
            let sf = scaffold_fields(fs, st);
            assert forall|i: int| 0 <= i < sf.len() implies tree_wf(#[trigger] sf[i].1) by {
                lemma_scaffold_wf(fs[i].1, st);
            }
            assert(sorted_keys(sf));
            lemma_mk_plan_wf(st, Tree::Object(sf), Option::None);
        },
        Tree::Array(items) => {
            lemma_scaffold_items_shape(items, st);
            let si = scaffold_items(items, st);
            assert forall|i: int| 0 <= i < si.len() implies tree_wf(#[trigger] si[i]) by {
                lemma_scaffold_wf(items[i], st);
            }
            lemma_mk_plan_wf(st, Tree::Array(si), Option::None);
        },
        _ => {
            lemma_mk_plan_wf(st, v, Option::None);
        },
    }
}

/// A found element is one of the array's elements.
proof fn lemma_last_with_id_member(items: Seq<Tree>, id: Seq<char>, ik: Seq<Seq<char>>)
    requires
        last_with_id(items, id, ik) is Some,
    ensures
        exists|i: int|
            0 <= i < items.len() && items[i] == last_with_id(items, id, ik)->Some_0,
    decreases items.len(),
{
    if identity_of(items.last(), ik) == Option::Some(id) {
        assert(items[items.len() - 1] == last_with_id(items, id, ik)->Some_0);
    } else {
        lemma_last_with_id_member(items.drop_last(), id, ik);
        let j = choose|j: int|
            0 <= j < items.len() - 1 && items.drop_last()[j] == last_with_id(
                items.drop_last(),
                id,
                ik,
            )->Some_0;
        assert(items[j] == last_with_id(items, id, ik)->Some_0);
    }
}

/// The merged plan fields of two well-formed objects are themselves in
/// strictly ascending key order, with well-formed plan nodes as values.
proof fn lemma_build_fields_wf(
    f1: Seq<(Seq<char>, Tree)>,
    f2: Seq<(Seq<char>, Tree)>,
    ik: Seq<Seq<char>>,
)
    requires
        sorted_keys(f1),
        sorted_keys(f2),
        forall|i: int| 0 <= i < f1.len() ==> tree_wf(#[trigger] f1[i].1),
        forall|i: int| 0 <= i < f2.len() ==> tree_wf(#[trigger] f2[i].1),
    ensures
        sorted_keys(build_fields(f1, f2, ik)),
        forall|i: int| 0 <= i < build_fields(f1, f2, ik).len() ==> tree_wf(
            (#[trigger] build_fields(f1, f2, ik)[i]).1,
        ),
        build_fields(f1, f2, ik).len() > 0 ==> ((f1.len() > 0 && build_fields(f1, f2, ik)[0].0
            == f1[0].0) || (f2.len() > 0 && build_fields(f1, f2, ik)[0].0 == f2[0].0)),
    decreases f1, f2, 1nat,
{
    let res = build_fields(f1, f2, ik);
    if f1.len() == 0 {
        lemma_scaffold_fields_shape(f2, Status::Add);
        assert forall|i: int| 0 <= i < res.len() implies tree_wf((#[trigger] res[i]).1) by {
            lemma_scaffold_wf(f2[i].1, Status::Add);
        }
        assert(sorted_keys(res));
    } else if f2.len() == 0 {
        lemma_scaffold_fields_shape(f1, Status::Keep);
        assert forall|i: int| 0 <= i < res.len() implies tree_wf((#[trigger] res[i]).1) by {
            lemma_scaffold_wf(f1[i].1, Status::Keep);
        }
        assert(sorted_keys(res));
    } else {
        let s1 = f1.subrange(1, f1.len() as int);
        let s2 = f2.subrange(1, f2.len() as int);
        assert(forall|i: int| 0 <= i < s1.len() ==> #[trigger] s1[i] == f1[i + 1]);
        assert(forall|i: int| 0 <= i < s2.len() ==> #[trigger] s2[i] == f2[i + 1]);
        if f1[0].0 == f2[0].0 {
            let head = (f1[0].0, build_spec(f1[0].1, f2[0].1, ik));
            let rest = build_fields(s1, s2, ik);
            lemma_build_wf(f1[0].1, f2[0].1, ik);
            lemma_build_fields_wf(s1, s2, ik);
            assert(res == seq![head] + rest);
            assert(forall|i: int| 0 <= i < rest.len() ==> res[i + 1] == rest[i]);
            assert forall|i: int| 0 <= i < rest.len() implies key_lt(head.0, rest[i].0) by {
                if rest.len() > 0 {
                    if i > 0 {
                        lemma_key_lt_trans(head.0, rest[0].0, rest[i].0);
                    }
                }
            }
            assert(sorted_keys(res));
        } else if key_lt(f1[0].0, f2[0].0) {
            let head = (f1[0].0, scaffold_spec(f1[0].1, Status::Keep));
            let rest = build_fields(s1, f2, ik);
            lemma_scaffold_wf(f1[0].1, Status::Keep);
            lemma_build_fields_wf(s1, f2, ik);
            assert(res == seq![head] + rest);
            assert(forall|i: int| 0 <= i < rest.len() ==> res[i + 1] == rest[i]);
            assert forall|i: int| 0 <= i < rest.len() implies key_lt(head.0, rest[i].0) by {
                if rest.len() > 0 {
                    if i > 0 {
                        lemma_key_lt_trans(head.0, rest[0].0, rest[i].0);
                    }
                }
            }
            assert(sorted_keys(res));
        } else {
            lemma_key_lt_trichotomy(f1[0].0, f2[0].0);
            let head = (f2[0].0, scaffold_spec(f2[0].1, Status::Add));
            let rest = build_fields(f1, s2, ik);
            lemma_scaffold_wf(f2[0].1, Status::Add);
            lemma_build_fields_wf(f1, s2, ik);
            assert(res == seq![head] + rest);
            assert(forall|i: int| 0 <= i < rest.len() ==> res[i + 1] == rest[i]);
            assert forall|i: int| 0 <= i < rest.len() implies key_lt(head.0, rest[i].0) by {
                if rest.len() > 0 {
                    if i > 0 {
                        lemma_key_lt_trans(head.0, rest[0].0, rest[i].0);
                    }
                }
            }
            assert(sorted_keys(res));
        }
    }
}

/// Every plan node built for the first array's elements is well-formed.
proof fn lemma_build_items_a_wf(e1: Seq<Tree>, e2: Seq<Tree>, ik: Seq<Seq<char>>)
    requires
        forall|i: int| 0 <= i < e1.len() ==> tree_wf(#[trigger] e1[i]),
        forall|i: int| 0 <= i < e2.len() ==> tree_wf(#[trigger] e2[i]),
    ensures
        forall|i: int| 0 <= i < build_items_a(e1, e2, ik).len() ==> tree_wf(
            #[trigger] build_items_a(e1, e2, ik)[i],
        ),
    decreases e1, e2, 1nat,
{
    if e1.len() > 0 {
        let s1 = e1.subrange(1, e1.len() as int);
        assert(forall|i: int| 0 <= i < s1.len() ==> #[trigger] s1[i] == e1[i + 1]);
        match identity_of(e1[0], ik) {
            Option::Some(id) => match last_with_id(e2, id, ik) {
                Option::Some(m) => {
                    lemma_last_with_id_member(e2, id, ik);
                    lemma_build_wf(e1[0], m, ik);
                },
                Option::None => {
                    lemma_scaffold_wf(e1[0], Status::Keep);
                },
            },
            Option::None => {
                lemma_scaffold_wf(e1[0], Status::Keep);
            },
        }
        lemma_build_items_a_wf(s1, e2, ik);
        let rest = build_items_a(s1, e2, ik);
        assert(forall|i: int| 0 <= i < rest.len() ==> build_items_a(e1, e2, ik)[i + 1] == rest[i]);
    }
}

/// Every plan node built for the second array's new elements is well-formed.
proof fn lemma_build_items_b_wf(e1: Seq<Tree>, e2: Seq<Tree>, ik: Seq<Seq<char>>)
    requires
        forall|i: int| 0 <= i < e2.len() ==> tree_wf(#[trigger] e2[i]),
    ensures
        forall|i: int| 0 <= i < build_items_b(e1, e2, ik).len() ==> tree_wf(
            #[trigger] build_items_b(e1, e2, ik)[i],
        ),
    decreases e2.len(),
{
    if e2.len() > 0 {
        let s2 = e2.subrange(1, e2.len() as int);
        assert(forall|i: int| 0 <= i < s2.len() ==> #[trigger] s2[i] == e2[i + 1]);
        lemma_scaffold_wf(e2[0], Status::Add);
        lemma_build_items_b_wf(e1, s2, ik);
        let rest = build_items_b(e1, s2, ik);
        match identity_of(e2[0], ik) {
            Option::Some(id) => if last_with_id(e1, id, ik) is Some {
            } else {
                assert(forall|i: int| 0 <= i < rest.len() ==> build_items_b(e1, e2, ik)[i + 1]
                    == rest[i]);
            },
            Option::None => {
                assert(forall|i: int| 0 <= i < rest.len() ==> build_items_b(e1, e2, ik)[i + 1]
                    == rest[i]);
            },
        }
    }
}

/// Building preserves well-formedness: the plan built from two well-formed
/// documents is itself a well-formed tree, every object of it holding its
/// keys in strictly ascending order. Together with
/// [`lemma_build_deterministic`] this pins the serialized plan down to the
/// byte.
pub proof fn lemma_build_wf(a: Tree, b: Tree, ik: Seq<Seq<char>>)
    requires
        tree_wf(a),
        tree_wf(b),
    ensures
        tree_wf(build_spec(a, b, ik)),
    decreases a, b, 0nat,
{
    match a {
        Tree::Object(f1) => match b {
            Tree::Object(f2) => {
                lemma_build_fields_wf(f1, f2, ik);
                lemma_mk_plan_wf(
                    Status::Merge,
                    Tree::Object(build_fields(f1, f2, ik)),
                    Option::None,
                );
            },
            _ => {
                lemma_build_scalar_wf(a, b);
            },
        },
        Tree::Array(e1) => match b {
            Tree::Array(e2) => {
                lemma_build_items_a_wf(e1, e2, ik);
                lemma_build_items_b_wf(e1, e2, ik);
                let pa = build_items_a(e1, e2, ik);
                let pb = build_items_b(e1, e2, ik);
                assert forall|i: int| 0 <= i < (pa + pb).len() implies tree_wf(
                    #[trigger] (pa + pb)[i],
                ) by {
                    if i < pa.len() {
                        assert((pa + pb)[i] == pa[i]);
                    } else {
                        assert((pa + pb)[i] == pb[i - pa.len()]);
                    }
                }
                lemma_mk_plan_wf(Status::Merge, Tree::Array(pa + pb), Option::None);
            },
            _ => {
                lemma_build_scalar_wf(a, b);
            },
        },
        _ => {
            lemma_build_scalar_wf(a, b);
        },
    }
}

proof fn lemma_build_scalar_wf(a: Tree, b: Tree)
    requires
        tree_wf(a),
        tree_wf(b),
    ensures
        tree_wf(build_scalar(a, b)),
{
    if a == b {
        lemma_mk_plan_wf(Status::Keep, a, Option::None);
    } else {
        lemma_mk_plan_wf(Status::Overwrite, b, Option::Some(a));
    }
}

/// Applied object fields stay in strictly ascending key order (dropping
/// entries keeps the order), with well-formed values.
proof fn lemma_apply_fields_wf(fs: Seq<(Seq<char>, Tree)>)
    requires
        sorted_keys(fs),
        forall|i: int| 0 <= i < fs.len() ==> tree_wf(#[trigger] fs[i].1),
    ensures
        sorted_keys(apply_fields(fs)),
        forall|i: int| 0 <= i < apply_fields(fs).len() ==> tree_wf(
            (#[trigger] apply_fields(fs)[i]).1,
        ),
        forall|j: int| 0 <= j < apply_fields(fs).len() ==> exists|i: int|
            0 <= i < fs.len() && (#[trigger] apply_fields(fs)[j]).0 == fs[i].0,
    decreases fs, 1nat,
{
    if fs.len() > 0 {
        let sub = fs.subrange(1, fs.len() as int);
        assert(forall|i: int| 0 <= i < sub.len() ==> #[trigger] sub[i] == fs[i + 1]);
        assert forall|i: int, j: int| 0 <= i < j < sub.len() implies key_lt(
            sub[i].0,
            sub[j].0,
        ) by {
            assert(key_lt(fs[i + 1].0, fs[j + 1].0));
        }
        assert(sorted_keys(sub));
        lemma_apply_wf(fs[0].1);
        lemma_apply_fields_wf(sub);
        let rest = apply_fields(sub);
        let res = apply_fields(fs);
        match apply_spec(fs[0].1) {
            Option::Some(r) => {
                assert(res == seq![(fs[0].0, r)] + rest);
                assert(forall|i: int| 0 <= i < rest.len() ==> res[i + 1] == rest[i]);
                assert forall|j: int| 0 <= j < res.len() implies exists|i: int|
                    0 <= i < fs.len() && (#[trigger] res[j]).0 == fs[i].0 by {
                    if j == 0 {
                        assert(res[0].0 == fs[0].0);
                    } else {
                        let i0 = choose|i0: int|
                            0 <= i0 < sub.len() && rest[j - 1].0 == sub[i0].0;
                        assert(res[j].0 == fs[i0 + 1].0);
                    }
                }
                assert forall|j: int| 1 <= j < res.len() implies key_lt(res[0].0, res[j].0) by {
                    let i0 = choose|i0: int| 0 <= i0 < sub.len() && rest[j - 1].0 == sub[i0].0;
                    assert(res[j].0 == fs[i0 + 1].0);
                }
                assert(sorted_keys(res));
            },
            Option::None => {
                assert(res == rest);
            },
        }
    }
}

/// Applied array elements are well-formed.
proof fn lemma_apply_items_wf(items: Seq<Tree>)
    requires
        forall|i: int| 0 <= i < items.len() ==> tree_wf(#[trigger] items[i]),
    ensures
        forall|i: int| 0 <= i < apply_items(items).len() ==> tree_wf(
            #[trigger] apply_items(items)[i],
        ),
    decreases items, 1nat,
{
    if items.len() > 0 {
        let sub = items.subrange(1, items.len() as int);
        assert(forall|i: int| 0 <= i < sub.len() ==> #[trigger] sub[i] == items[i + 1]);
        lemma_apply_wf(items[0]);
        lemma_apply_items_wf(sub);
        let rest = apply_items(sub);
        match apply_spec(items[0]) {
            Option::Some(r) => {
                assert(forall|i: int| 0 <= i < rest.len() ==> apply_items(items)[i + 1]
                    == rest[i]);
            },
            Option::None => {},
        }
    }
}

/// Applying preserves well-formedness: whatever a well-formed plan tree
/// resolves to is itself well-formed.
pub proof fn lemma_apply_wf(p: Tree)
    requires
        tree_wf(p),
    ensures
        apply_spec(p) is Some ==> tree_wf(apply_spec(p)->Some_0),
    decreases p, 0nat,
{
    match parse_plan(p) {
        Option::None => {},
        Option::Some(pn) => {
            if pn.0 == Status::Delete {
            } else {
                let fs = p->Object_0;
                lemma_lookup_index(fs, value_key());
                let i0 = choose|i0: int|
                    0 <= i0 < fs.len() && fs[i0].0 == value_key() && fs[i0].1 == lookup(
                        fs,
                        value_key(),
                    )->Some_0;
                assert(tree_wf(fs[i0].1));
                assert(pn.1 == fs[i0].1);
                match pn.1 {
                    Tree::Object(vfs) => {
                        assert(decreases_to!(p => p->Object_0));
                        assert(decreases_to!(fs => fs[i0]));
                        assert(decreases_to!(fs[i0] => fs[i0].1));
                        assert(decreases_to!(fs[i0].1 => fs[i0].1->Object_0));
                        assert(decreases_to!(p => vfs));
                        lemma_apply_fields_wf(vfs);
                        assert(apply_spec(p) == Option::Some(Tree::Object(apply_fields(vfs))));
                        assert(tree_wf(Tree::Object(apply_fields(vfs))));
                    },
                    Tree::Array(vis) => {
                        assert(decreases_to!(p => p->Object_0));
                        assert(decreases_to!(fs => fs[i0]));
                        assert(decreases_to!(fs[i0] => fs[i0].1));
                        assert(decreases_to!(fs[i0].1 => fs[i0].1->Array_0));
                        assert(decreases_to!(p => vis));
                        lemma_apply_items_wf(vis);
                        assert(apply_spec(p) == Option::Some(Tree::Array(apply_items(vis))));
                        assert(tree_wf(Tree::Array(apply_items(vis))));
                    },
                    _ => {},
                }
            }
        },
    }
}

} // verus!
