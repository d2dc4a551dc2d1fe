use vstd::prelude::*;

use crate::tree::TreeValue;
use crate::tree::Tree;
use crate::tree::tree_view;
use crate::tree::items_view;
use crate::tree::fields_view;
use crate::tree::lookup;
use crate::tree::key_lt;
use crate::tree::obj_get;
use crate::tree::str_key_lt;
use crate::tree::lemma_items_view_len;
use crate::tree::lemma_items_view_index;
use crate::tree::lemma_items_view_push;
use crate::tree::lemma_fields_view_len;
use crate::tree::lemma_fields_view_index;
use crate::tree::lemma_fields_view_push;
use crate::plan::Status;
use crate::plan::PlanNode;
use crate::plan::mk_plan;

verus! {

/// The identity of an array element: scanning the identity keys in order, the
/// first one under which the element (a keyed map) holds text names the
/// element; that text is its identity. Elements that are not keyed maps, and
/// keys holding no text, yield none.
pub open spec fn identity_of(item: Tree, ik: Seq<Seq<char>>) -> Option<Seq<char>>
    decreases ik.len(),
{
    match item {
        Tree::Object(fs) => if ik.len() == 0 {
            Option::None
        } else {
            match lookup(fs, ik[0]) {
                Option::Some(Tree::Text(s)) => Option::Some(s),
                _ => identity_of(item, ik.subrange(1, ik.len() as int)),
            }
        },
        _ => Option::None,
    }
}

/// The last element of `items` carrying the given identity, if any: a lookup
/// table filled front to back retains the latest entry per identity.
pub open spec fn last_with_id(items: Seq<Tree>, id: Seq<char>, ik: Seq<Seq<char>>) -> Option<Tree>
    decreases items.len(),
{
    if items.len() == 0 {
        Option::None
    } else if identity_of(items.last(), ik) == Option::Some(id) {
        Option::Some(items.last())
    } else {
        last_with_id(items.drop_last(), id, ik)
    }
}

/// Scaffold over object fields: every value rewrapped with the same status.
pub open spec fn scaffold_fields(fs: Seq<(Seq<char>, Tree)>, st: Status) -> Seq<(Seq<char>, Tree)>
    decreases fs,
{
    if fs.len() == 0 {
        Seq::empty()
    } else {
        seq![(fs[0].0, scaffold_spec(fs[0].1, st))] + scaffold_fields(
            fs.subrange(1, fs.len() as int),
            st,
        )
    }
}

/// Scaffold over array elements: every element rewrapped with the same status.
pub open spec fn scaffold_items(items: Seq<Tree>, st: Status) -> Seq<Tree>
    decreases items,
{
    if items.len() == 0 {
        Seq::empty()
    } else {
        seq![scaffold_spec(items[0], st)] + scaffold_items(items.subrange(1, items.len() as int), st)
    }
}

/// A scaffold: the purely structural plan that rewraps every node of a value
/// with one uniform status, down to every leaf. No comparisons are made.
pub open spec fn scaffold_spec(v: Tree, st: Status) -> Tree
    decreases v,
{
    match v {
        Tree::Object(fs) => mk_plan(st, Tree::Object(scaffold_fields(fs, st)), Option::None),
        Tree::Array(items) => mk_plan(st, Tree::Array(scaffold_items(items, st)), Option::None),
        _ => mk_plan(st, v, Option::None),
    }
}

/// Comparison of two values that are not recursed into: equal values are
/// kept; differing ones are overwritten by the second, recording the first
/// as the prior value. Two values of different shapes always land here.
pub open spec fn build_scalar(a: Tree, b: Tree) -> Tree {
    if a == b {
        mk_plan(Status::Keep, a, Option::None)
    } else {
        mk_plan(Status::Overwrite, b, Option::Some(a))
    }
}

/// Plan fields for two objects, walking the union of their keys in ascending
/// order (both field lists are walked as the sorted lists a sorted map
/// yields): a key in both recurses; a key only in the first is kept; a key
/// only in the second is added.
pub open spec fn build_fields(
    f1: Seq<(Seq<char>, Tree)>,
    f2: Seq<(Seq<char>, Tree)>,
    ik: Seq<Seq<char>>,
) -> Seq<(Seq<char>, Tree)>
    decreases f1, f2,
{
    if f1.len() == 0 {
        scaffold_fields(f2, Status::Add)
    } else if f2.len() == 0 {
        scaffold_fields(f1, Status::Keep)
    } else if f1[0].0 == f2[0].0 {
        seq![(f1[0].0, build_spec(f1[0].1, f2[0].1, ik))] + build_fields(
            f1.subrange(1, f1.len() as int),
            f2.subrange(1, f2.len() as int),
            ik,
        )
    } else if key_lt(f1[0].0, f2[0].0) {
        seq![(f1[0].0, scaffold_spec(f1[0].1, Status::Keep))] + build_fields(
            f1.subrange(1, f1.len() as int),
            f2,
            ik,
        )
    } else {
        seq![(f2[0].0, scaffold_spec(f2[0].1, Status::Add))] + build_fields(
            f1,
            f2.subrange(1, f2.len() as int),
            ik,
        )
    }
}

/// Plan nodes for the first array's elements, in their original order: an
/// element whose identity also names an element of the second array is
/// recursed against that element; all others are kept.
pub open spec fn build_items_a(e1: Seq<Tree>, e2: Seq<Tree>, ik: Seq<Seq<char>>) -> Seq<Tree>
    decreases e1, e2,
{
    if e1.len() == 0 {
        Seq::empty()
    } else {
        let node = match identity_of(e1[0], ik) {
            Option::Some(id) => match last_with_id(e2, id, ik) {
                Option::Some(m) => build_spec(e1[0], m, ik),
                Option::None => scaffold_spec(e1[0], Status::Keep),
            },
            Option::None => scaffold_spec(e1[0], Status::Keep),
        };
        seq![node] + build_items_a(e1.subrange(1, e1.len() as int), e2, ik)
    }
}

/// Plan nodes for the second array's new elements, in their original order:
/// an element without identity, or whose identity names no element of the
/// first array, is added; all others were already handled by the first walk.
pub open spec fn build_items_b(e1: Seq<Tree>, e2: Seq<Tree>, ik: Seq<Seq<char>>) -> Seq<Tree>
    decreases e2.len(),
{
    if e2.len() == 0 {
        Seq::empty()
    } else {
        let rest = build_items_b(e1, e2.subrange(1, e2.len() as int), ik);
        match identity_of(e2[0], ik) {
            Option::Some(id) => if last_with_id(e1, id, ik) is Some {
                rest
            } else {
                seq![scaffold_spec(e2[0], Status::Add)] + rest
            },
            Option::None => seq![scaffold_spec(e2[0], Status::Add)] + rest,
        }
    }
}

/// The plan for transforming `a` into `b`: two objects merge per key, two
/// arrays merge per element identity (the first array's elements in their
/// order, then the second array's new elements in theirs), and every other
/// pair compares by equality. The builder never produces a `Delete`.
pub open spec fn build_spec(a: Tree, b: Tree, ik: Seq<Seq<char>>) -> Tree
    decreases a, b,
{
    match a {
        Tree::Object(f1) => match b {
            Tree::Object(f2) => mk_plan(
                Status::Merge,
                Tree::Object(build_fields(f1, f2, ik)),
                Option::None,
            ),
            _ => build_scalar(a, b),
        },
        Tree::Array(e1) => match b {
            Tree::Array(e2) => mk_plan(
                Status::Merge,
                Tree::Array(build_items_a(e1, e2, ik) + build_items_b(e1, e2, ik)),
                Option::None,
            ),
            _ => build_scalar(a, b),
        },
        _ => build_scalar(a, b),
    }
}

/// Elementwise model of an optional identity.
pub open spec fn opt_key_view(o: Option<String>) -> Option<Seq<char>> {
    match o {
        Option::None => Option::None,
        Option::Some(s) => Option::Some(s@),
    }
}

/// Resolves an array element's identity, as [`identity_of`] names it.
pub fn get_item_identity(item: &TreeValue, identity_keys: &Vec<String>) -> (r: Option<String>)
    ensures
        opt_key_view(r) == identity_of(item@, identity_keys.deep_view()),
{
    let ghost ik = identity_keys.deep_view();
    match item {
        TreeValue::Object(fields) => {
            let mut i: usize = 0;
            proof {
                assert(ik.subrange(0, ik.len() as int) =~= ik);
            }
            while i < identity_keys.len()
                invariant
                    i <= identity_keys@.len(),
                    ik == identity_keys.deep_view(),
                    ik.len() == identity_keys@.len(),
                    *item == TreeValue::Object(*fields),
                    identity_of(item@, ik) == identity_of(
                        item@,
                        ik.subrange(i as int, ik.len() as int),
                    ),
                decreases identity_keys@.len() - i,
            {
                let ghost tail = ik.subrange(i as int, ik.len() as int);
                proof {
                    assert(tail[0] == ik[i as int]);
                    assert(ik[i as int] == identity_keys@[i as int]@);
                }
                match obj_get(fields, &identity_keys[i]) {
                    Option::Some(v) => match v {
                        TreeValue::Text(s) => {
                            return Option::Some(s.clone());
                        },
                        _ => {},
                    },
                    Option::None => {},
                }
                proof {
                    assert(tail.subrange(1, tail.len() as int) =~= ik.subrange(
                        i + 1,
                        ik.len() as int,
                    ));
                }
                i += 1;
            }
            proof {
                assert(ik.subrange(i as int, ik.len() as int).len() == 0);
            }
            Option::None
        },
        _ => Option::None,
    }
}

/// Finds the element [`last_with_id`] names, scanning from the back.
fn find_last_by_identity<'a>(
    items: &'a Vec<TreeValue>,
    id: &String,
    identity_keys: &Vec<String>,
) -> (r: Option<&'a TreeValue>)
    ensures
        match r {
            Option::Some(v) => last_with_id(items_view(items@), id@, identity_keys.deep_view())
                == Option::Some(v@),
            Option::None => last_with_id(items_view(items@), id@, identity_keys.deep_view())
                is None,
        },
{
    let ghost iv = items_view(items@);
    let ghost ik = identity_keys.deep_view();
    let mut i: usize = items.len();
    proof {
        lemma_items_view_len(items@);
        assert(iv.subrange(0, iv.len() as int) =~= iv);
    }
    while i > 0
        invariant
            i <= items@.len(),
            iv == items_view(items@),
            ik == identity_keys.deep_view(),
            iv.len() == items@.len(),
            last_with_id(iv, id@, ik) == last_with_id(iv.subrange(0, i as int), id@, ik),
        decreases i,
    {
        i -= 1;
        let ghost prefix = iv.subrange(0, i as int + 1);
        proof {
            lemma_items_view_index(items@, i as int);
            assert(prefix.last() == iv[i as int]);
            assert(prefix.drop_last() =~= iv.subrange(0, i as int));
        }
        let ident = get_item_identity(&items[i], identity_keys);
        match ident {
            Option::Some(s) => {
                if s.eq(id) {
                    return Option::Some(&items[i]);
                }
            },
            Option::None => {},
        }
        proof {
            assert(identity_of(iv[i as int], ik) != Option::Some(id@));
        }
    }
    proof {
        assert(iv.subrange(0, 0).len() == 0);
    }
    Option::None
}

/// Builds the scaffold plan over a value: the value rewrapped with one
/// uniform status down to every leaf, no comparisons made.
pub fn create_scaffold_plan(obj: &TreeValue, status: Status) -> (r: PlanNode)
    ensures
        r@ == scaffold_spec(obj@, status),
    decreases *obj,
{
    match obj {
        TreeValue::Object(fields) => {
            let ghost fv = fields_view(fields@);
            let mut out: Vec<(String, TreeValue)> = Vec::new();
            let mut i: usize = 0;
            proof {
                lemma_fields_view_len(fields@);
                assert(fv.subrange(0, fv.len() as int) =~= fv);
                assert(fields_view(out@) =~= Seq::<(Seq<char>, Tree)>::empty());
            }
            while i < fields.len()
                invariant
                    i <= fields@.len(),
                    fv == fields_view(fields@),
                    fv.len() == fields@.len(),
                    *obj == TreeValue::Object(*fields),
                    scaffold_fields(fv, status) == fields_view(out@) + scaffold_fields(
                        fv.subrange(i as int, fv.len() as int),
                        status,
                    ),
                decreases fields@.len() - i,
            {
                let ghost tail = fv.subrange(i as int, fv.len() as int);
                proof {
                    lemma_fields_view_index(fields@, i as int);
                    assert(tail[0] == fv[i as int]);
                    assert(tail.subrange(1, tail.len() as int) =~= fv.subrange(
                        i + 1,
                        fv.len() as int,
                    ));
                    assert(decreases_to!(*obj => obj->Object_0));
                    assert(decreases_to!(*fields => fields@));
                    assert(decreases_to!(fields@ => fields@[i as int]));
                    assert(decreases_to!(fields@[i as int] => fields@[i as int].1));
                    assert(decreases_to!(*obj => fields@[i as int].1));
                }
                let child = create_scaffold_plan(&fields[i].1, status);
                let key = fields[i].0.clone();
                let child_tree = child.to_tree();
                proof {
                    lemma_fields_view_push(out@, (key, child_tree));
                }
                out.push((key, child_tree));
                i += 1;
            }
            proof {
                assert(fv.subrange(i as int, fv.len() as int).len() == 0);
                assert(fields_view(out@) =~= scaffold_fields(fv, status));
            }
            PlanNode { status, value: TreeValue::Object(out), old_value: Option::None }
        },
        TreeValue::Array(items) => {
            let ghost iv = items_view(items@);
            let mut out: Vec<TreeValue> = Vec::new();
            let mut i: usize = 0;
            proof {
                lemma_items_view_len(items@);
                assert(iv.subrange(0, iv.len() as int) =~= iv);
                assert(items_view(out@) =~= Seq::<Tree>::empty());
            }
            while i < items.len()
                invariant
                    i <= items@.len(),
                    iv == items_view(items@),
                    iv.len() == items@.len(),
                    *obj == TreeValue::Array(*items),
                    scaffold_items(iv, status) == items_view(out@) + scaffold_items(
                        iv.subrange(i as int, iv.len() as int),
                        status,
                    ),
                decreases items@.len() - i,
            {
                let ghost tail = iv.subrange(i as int, iv.len() as int);
                proof {
                    lemma_items_view_index(items@, i as int);
                    assert(tail[0] == iv[i as int]);
                    assert(tail.subrange(1, tail.len() as int) =~= iv.subrange(
                        i + 1,
                        iv.len() as int,
                    ));
                    assert(decreases_to!(*obj => obj->Array_0));
                    assert(decreases_to!(*items => items@));
                    assert(decreases_to!(items@ => items@[i as int]));
                    assert(decreases_to!(*obj => items@[i as int]));
                }
                let child = create_scaffold_plan(&items[i], status);
                let child_tree = child.to_tree();
                proof {
                    lemma_items_view_push(out@, child_tree);
                }
                out.push(child_tree);
                i += 1;
            }
            proof {
                assert(iv.subrange(i as int, iv.len() as int).len() == 0);
                assert(items_view(out@) =~= scaffold_items(iv, status));
            }
            PlanNode { status, value: TreeValue::Array(out), old_value: Option::None }
        },
        _ => PlanNode { status, value: obj.deep_clone(), old_value: Option::None },
    }
}

/// Compares two values without recursing into them.
fn create_scalar_plan(obj1: &TreeValue, obj2: &TreeValue) -> (r: PlanNode)
    ensures
        r@ == build_scalar(obj1@, obj2@),
{
    if obj1.deep_eq(obj2) {
        PlanNode { status: Status::Keep, value: obj1.deep_clone(), old_value: Option::None }
    } else {
        PlanNode {
            status: Status::Overwrite,
            value: obj2.deep_clone(),
            old_value: Option::Some(obj1.deep_clone()),
        }
    }
}

/// Builds the plan for transforming `obj1` into `obj2`, exactly as
/// [`build_spec`] describes it.
pub fn create_plan(obj1: &TreeValue, obj2: &TreeValue, identity_keys: &Vec<String>) -> (r:
    PlanNode)
    ensures
        r@ == build_spec(obj1@, obj2@, identity_keys.deep_view()),
    decreases *obj1, *obj2,
{
    let ghost ik = identity_keys.deep_view();
    match obj1 {
        TreeValue::Object(f1) => match obj2 {
            TreeValue::Object(f2) => {
                let ghost fv1 = fields_view(f1@);
                let ghost fv2 = fields_view(f2@);
                let mut out: Vec<(String, TreeValue)> = Vec::new();
                let mut i: usize = 0;
                let mut j: usize = 0;
                proof {
                    lemma_fields_view_len(f1@);
                    lemma_fields_view_len(f2@);
                    assert(fv1.subrange(0, fv1.len() as int) =~= fv1);
                    assert(fv2.subrange(0, fv2.len() as int) =~= fv2);
                    assert(fields_view(out@) =~= Seq::<(Seq<char>, Tree)>::empty());
                }
                while i < f1.len() || j < f2.len()
                    invariant
                        i <= f1@.len(),
                        j <= f2@.len(),
                        fv1 == fields_view(f1@),
                        fv2 == fields_view(f2@),
                        fv1.len() == f1@.len(),
                        fv2.len() == f2@.len(),
                        ik == identity_keys.deep_view(),
                        *obj1 == TreeValue::Object(*f1),
                        *obj2 == TreeValue::Object(*f2),
                        build_fields(fv1, fv2, ik) == fields_view(out@) + build_fields(
                            fv1.subrange(i as int, fv1.len() as int),
                            fv2.subrange(j as int, fv2.len() as int),
                            ik,
                        ),
                    decreases f1@.len() - i + f2@.len() - j,
                {
                    let ghost t1 = fv1.subrange(i as int, fv1.len() as int);
                    let ghost t2 = fv2.subrange(j as int, fv2.len() as int);
                    proof {
                        if i < f1@.len() {
                            lemma_fields_view_index(f1@, i as int);
                            assert(t1[0] == fv1[i as int]);
                            assert(t1.subrange(1, t1.len() as int) =~= fv1.subrange(
                                i + 1,
                                fv1.len() as int,
                            ));
                        }
                        if j < f2@.len() {
                            lemma_fields_view_index(f2@, j as int);
                            assert(t2[0] == fv2[j as int]);
                            assert(t2.subrange(1, t2.len() as int) =~= fv2.subrange(
                                j + 1,
                                fv2.len() as int,
                            ));
                        }
                    }
                    if i >= f1.len() {
                        proof {
                            assert(decreases_to!(*obj2 => obj2->Object_0));
                            assert(decreases_to!(*f2 => f2@));
                            assert(decreases_to!(f2@ => f2@[j as int]));
                            assert(decreases_to!(f2@[j as int] => f2@[j as int].1));
                            assert(decreases_to!(*obj2 => f2@[j as int].1));
                            assert(t1.len() == 0);
                        }
                        let child = create_scaffold_plan(&f2[j].1, Status::Add);
                        let key = f2[j].0.clone();
                        let child_tree = child.to_tree();
                        proof {
                            lemma_fields_view_push(out@, (key, child_tree));
                        }
                        out.push((key, child_tree));
                        j += 1;
                    } else if j >= f2.len() {
                        proof {
                            assert(decreases_to!(*obj1 => obj1->Object_0));
                            assert(decreases_to!(*f1 => f1@));
                            assert(decreases_to!(f1@ => f1@[i as int]));
                            assert(decreases_to!(f1@[i as int] => f1@[i as int].1));
                            assert(decreases_to!(*obj1 => f1@[i as int].1));
                            assert(t2.len() == 0);
                        }
                        let child = create_scaffold_plan(&f1[i].1, Status::Keep);
                        let key = f1[i].0.clone();
                        let child_tree = child.to_tree();
                        proof {
                            lemma_fields_view_push(out@, (key, child_tree));
                        }
                        out.push((key, child_tree));
                        i += 1;
                    } else if f1[i].0.eq(&f2[j].0) {
                        proof {
                            assert(decreases_to!(*obj1 => obj1->Object_0));
                            assert(decreases_to!(*f1 => f1@));
                            assert(decreases_to!(f1@ => f1@[i as int]));
                            assert(decreases_to!(f1@[i as int] => f1@[i as int].1));
                            assert(decreases_to!(*obj1 => f1@[i as int].1));
                        }
                        let child = create_plan(&f1[i].1, &f2[j].1, identity_keys);
                        let key = f1[i].0.clone();
                        let child_tree = child.to_tree();
                        proof {
                            lemma_fields_view_push(out@, (key, child_tree));
                        }
                        out.push((key, child_tree));
                        i += 1;
                        j += 1;
                    } else if str_key_lt(&f1[i].0, &f2[j].0) {
                        proof {
                            assert(decreases_to!(*obj1 => obj1->Object_0));
                            assert(decreases_to!(*f1 => f1@));
                            assert(decreases_to!(f1@ => f1@[i as int]));
                            assert(decreases_to!(f1@[i as int] => f1@[i as int].1));
                            assert(decreases_to!(*obj1 => f1@[i as int].1));
                        }
                        let child = create_scaffold_plan(&f1[i].1, Status::Keep);
                        let key = f1[i].0.clone();
                        let child_tree = child.to_tree();
                        proof {
                            lemma_fields_view_push(out@, (key, child_tree));
                        }
                        out.push((key, child_tree));
                        i += 1;
                    } else {
                        proof {
                            assert(decreases_to!(*obj2 => obj2->Object_0));
                            assert(decreases_to!(*f2 => f2@));
                            assert(decreases_to!(f2@ => f2@[j as int]));
                            assert(decreases_to!(f2@[j as int] => f2@[j as int].1));
                            assert(decreases_to!(*obj2 => f2@[j as int].1));
                        }
                        let child = create_scaffold_plan(&f2[j].1, Status::Add);
                        let key = f2[j].0.clone();
                        let child_tree = child.to_tree();
                        proof {
                            lemma_fields_view_push(out@, (key, child_tree));
                        }
                        out.push((key, child_tree));
                        j += 1;
                    }
                }
                proof {
                    assert(fv1.subrange(i as int, fv1.len() as int).len() == 0);
                    assert(fv2.subrange(j as int, fv2.len() as int).len() == 0);
                    assert(fields_view(out@) =~= build_fields(fv1, fv2, ik));
                }
                PlanNode {
                    status: Status::Merge,
                    value: TreeValue::Object(out),
                    old_value: Option::None,
                }
            },
            _ => create_scalar_plan(obj1, obj2),
        },
        TreeValue::Array(e1) => match obj2 {
            TreeValue::Array(e2) => {
                let ghost iv1 = items_view(e1@);
                let ghost iv2 = items_view(e2@);
                let mut out: Vec<TreeValue> = Vec::new();
                let mut i: usize = 0;
                proof {
                    lemma_items_view_len(e1@);
                    lemma_items_view_len(e2@);
                    assert(iv1.subrange(0, iv1.len() as int) =~= iv1);
                    assert(items_view(out@) =~= Seq::<Tree>::empty());
                }
                while i < e1.len()
                    invariant
                        i <= e1@.len(),
                        iv1 == items_view(e1@),
                        iv2 == items_view(e2@),
                        iv1.len() == e1@.len(),
                        ik == identity_keys.deep_view(),
                        *obj1 == TreeValue::Array(*e1),
                        *obj2 == TreeValue::Array(*e2),
                        build_items_a(iv1, iv2, ik) == items_view(out@) + build_items_a(
                            iv1.subrange(i as int, iv1.len() as int),
                            iv2,
                            ik,
                        ),
                    decreases e1@.len() - i,
                {
                    let ghost t1 = iv1.subrange(i as int, iv1.len() as int);
                    proof {
                        lemma_items_view_index(e1@, i as int);
                        assert(t1[0] == iv1[i as int]);
                        assert(t1.subrange(1, t1.len() as int) =~= iv1.subrange(
                            i + 1,
                            iv1.len() as int,
                        ));
                        assert(decreases_to!(*obj1 => obj1->Array_0));
                        assert(decreases_to!(*e1 => e1@));
                        assert(decreases_to!(e1@ => e1@[i as int]));
                        assert(decreases_to!(*obj1 => e1@[i as int]));
                    }
                    let ident = get_item_identity(&e1[i], identity_keys);
                    let child = match ident {
                        Option::Some(id) => match find_last_by_identity(e2, &id, identity_keys) {
                            Option::Some(m) => create_plan(&e1[i], m, identity_keys),
                            Option::None => create_scaffold_plan(&e1[i], Status::Keep),
                        },
                        Option::None => create_scaffold_plan(&e1[i], Status::Keep),
                    };
                    let child_tree = child.to_tree();
                    proof {
                        lemma_items_view_push(out@, child_tree);
                    }
                    out.push(child_tree);
                    i += 1;
                }
                proof {
                    assert(iv1.subrange(i as int, iv1.len() as int).len() == 0);
                    assert(items_view(out@) =~= build_items_a(iv1, iv2, ik));
                    assert(iv2.subrange(0, iv2.len() as int) =~= iv2);
                }
                let mut j: usize = 0;
                while j < e2.len()
                    invariant
                        j <= e2@.len(),
                        iv1 == items_view(e1@),
                        iv2 == items_view(e2@),
                        iv2.len() == e2@.len(),
                        ik == identity_keys.deep_view(),
                        *obj1 == TreeValue::Array(*e1),
                        *obj2 == TreeValue::Array(*e2),
                        build_items_a(iv1, iv2, ik) + build_items_b(iv1, iv2, ik) == items_view(
                            out@,
                        ) + build_items_b(iv1, iv2.subrange(j as int, iv2.len() as int), ik),
                    decreases e2@.len() - j,
                {
                    let ghost t2 = iv2.subrange(j as int, iv2.len() as int);
                    proof {
                        lemma_items_view_index(e2@, j as int);
                        assert(t2[0] == iv2[j as int]);
                        assert(t2.subrange(1, t2.len() as int) =~= iv2.subrange(
                            j + 1,
                            iv2.len() as int,
                        ));
                    }
                    let ident = get_item_identity(&e2[j], identity_keys);
                    let add = match ident {
                        Option::Some(id) => find_last_by_identity(e1, &id, identity_keys).is_none(),
                        Option::None => true,
                    };
                    if add {
                        let child = create_scaffold_plan(&e2[j], Status::Add);
                        let child_tree = child.to_tree();
                        proof {
                            lemma_items_view_push(out@, child_tree);
                        }
                        out.push(child_tree);
                    }
                    j += 1;
                }
                proof {
                    assert(iv2.subrange(j as int, iv2.len() as int).len() == 0);
                    assert(items_view(out@) =~= build_items_a(iv1, iv2, ik) + build_items_b(
                        iv1,
                        iv2,
                        ik,
                    ));
                }
                PlanNode {
                    status: Status::Merge,
                    value: TreeValue::Array(out),
                    old_value: Option::None,
                }
            },
            _ => create_scalar_plan(obj1, obj2),
        },
        _ => create_scalar_plan(obj1, obj2),
    }
}

/// Builds the plan for transforming `a` into `b` and serializes it into its
/// keyed-map tree form, ready to be rendered as text.
pub fn generate_plan_tree(a: &TreeValue, b: &TreeValue, identity_keys: &Vec<String>) -> (r:
    TreeValue)
    ensures
        r@ == build_spec(a@, b@, identity_keys.deep_view()),
        crate::tree::tree_wf(a@) && crate::tree::tree_wf(b@) ==> crate::tree::tree_wf(r@),
{
    proof {
        if crate::tree::tree_wf(a@) && crate::tree::tree_wf(b@) {
            crate::laws::lemma_build_wf(a@, b@, identity_keys.deep_view());
        }
    }
    let plan = create_plan(a, b, identity_keys);
    plan.to_tree()
}

} // verus!
