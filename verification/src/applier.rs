use vstd::prelude::*;

use crate::tree::TreeValue;
use crate::tree::Tree;
use crate::tree::tree_view;
use crate::tree::items_view;
use crate::tree::fields_view;
use crate::tree::lookup;
use crate::tree::lemma_lookup_index;
use crate::tree::lemma_items_view_len;
use crate::tree::lemma_items_view_index;
use crate::tree::lemma_items_view_push;
use crate::tree::lemma_fields_view_len;
use crate::tree::lemma_fields_view_index;
use crate::tree::lemma_fields_view_push;
use crate::plan::Status;
use crate::plan::opt_tree_view;
use crate::plan::parse_plan;
use crate::plan::parse_node;
use crate::plan::value_key;

verus! {

/// Applies a plan's object fields: each child is applied in order; children
/// resolving to absent are omitted from the result, the others keep their key.
pub open spec fn apply_fields(fs: Seq<(Seq<char>, Tree)>) -> Seq<(Seq<char>, Tree)>
    decreases fs,
{
    if fs.len() == 0 {
        Seq::empty()
    } else {
        let rest = apply_fields(fs.subrange(1, fs.len() as int));
        match apply_spec(fs[0].1) {
            Option::Some(r) => seq![(fs[0].0, r)] + rest,
            Option::None => rest,
        }
    }
}

/// Applies a plan's array elements: each element is applied in order; absent
/// results are dropped, the survivors keep their relative order.
pub open spec fn apply_items(items: Seq<Tree>) -> Seq<Tree>
    decreases items,
{
    if items.len() == 0 {
        Seq::empty()
    } else {
        let rest = apply_items(items.subrange(1, items.len() as int));
        match apply_spec(items[0]) {
            Option::Some(r) => seq![r] + rest,
            Option::None => rest,
        }
    }
}

/// Applies a plan tree, materializing the resulting document. A value that is
/// no serialized plan node passes through unchanged; a `delete` node resolves
/// to absent (`None`); any other node rebuilds its value, applying the
/// children of an object or array value and returning a scalar value as is.
pub open spec fn apply_spec(p: Tree) -> Option<Tree>
    decreases p,
    via apply_spec_decreases
{
    match parse_plan(p) {
        Option::None => Option::Some(p),
        Option::Some(pn) => if pn.0 == Status::Delete {
            Option::None
        } else {
            match pn.1 {
                Tree::Object(fs) => Option::Some(Tree::Object(apply_fields(fs))),
                Tree::Array(items) => Option::Some(Tree::Array(apply_items(items))),
                _ => Option::Some(pn.1),
            }
        },
    }
}

#[via_fn]
proof fn apply_spec_decreases(p: Tree) {
    match parse_plan(p) {
        Option::Some(pn) => {
            let fs = p->Object_0;
            lemma_lookup_index(fs, value_key());
            let i = choose|i: int|
                0 <= i < fs.len() && fs[i].0 == value_key() && fs[i].1 == lookup(
                    fs,
                    value_key(),
                )->Some_0;
            assert(decreases_to!(p => p->Object_0));
            assert(decreases_to!(fs => fs[i]));
            assert(decreases_to!(fs[i] => fs[i].1));
            assert(pn.1 == fs[i].1);
            match pn.1 {
                Tree::Object(vfs) => {
                    assert(decreases_to!(fs[i].1 => fs[i].1->Object_0));
                    assert(decreases_to!(p => vfs));
                },
                Tree::Array(vis) => {
                    assert(decreases_to!(fs[i].1 => fs[i].1->Array_0));
                    assert(decreases_to!(p => vis));
                },
                _ => {},
            }
        },
        Option::None => {},
    }
}

/// Applies a plan tree, exactly as [`apply_spec`] describes it: `None` means
/// the node resolved to absent and is omitted by the caller.
pub fn apply_plan(plan_value: &TreeValue) -> (r: Option<TreeValue>)
    ensures
        opt_tree_view(r) == apply_spec(plan_value@),
    decreases plan_value@,
{
    match plan_value {
        TreeValue::Object(fields) => {
            let parsed = parse_node(fields);
            match parsed {
                Option::None => Option::Some(plan_value.deep_clone()),
                Option::Some(node) => {
                    let st = node.0;
                    let value_ref = node.1;
                    if st == Status::Delete {
                        Option::None
                    } else {
                        match value_ref {
                            TreeValue::Object(vfields) => {
                                let ghost vfv = fields_view(vfields@);
                                let mut out: Vec<(String, TreeValue)> = Vec::new();
                                let mut k: usize = 0;
                                proof {
                                    lemma_fields_view_len(vfields@);
                                    assert(vfv.subrange(0, vfv.len() as int) =~= vfv);
                                    assert(fields_view(out@) =~= Seq::<(Seq<char>, Tree)>::empty());
                                }
                                while k < vfields.len()
                                    invariant
                                        k <= vfields@.len(),
                                        vfv == fields_view(vfields@),
                                        vfv.len() == vfields@.len(),
                                        *value_ref == TreeValue::Object(*vfields),
                                        plan_value@ is Object,
                                        parse_plan(plan_value@) is Some,
                                        parse_plan(plan_value@)->Some_0.1 == value_ref@,
                                        apply_fields(vfv) == fields_view(out@) + apply_fields(
                                            vfv.subrange(k as int, vfv.len() as int),
                                        ),
                                    decreases vfields@.len() - k,
                                {
                                    let ghost tail = vfv.subrange(k as int, vfv.len() as int);
                                    proof {
                                        lemma_fields_view_index(vfields@, k as int);
                                        assert(tail[0] == vfv[k as int]);
                                        assert(tail.subrange(1, tail.len() as int) =~= vfv.subrange(
                                            k + 1,
                                            vfv.len() as int,
                                        ));
                                        let pfs = plan_value@->Object_0;
                                        lemma_lookup_index(pfs, value_key());
                                        let i0 = choose|i0: int|
                                            0 <= i0 < pfs.len() && pfs[i0].0 == value_key()
                                                && pfs[i0].1 == lookup(pfs, value_key())->Some_0;
                                        assert(decreases_to!(plan_value@ => plan_value@->Object_0));
                                        assert(decreases_to!(pfs => pfs[i0]));
                                        assert(decreases_to!(pfs[i0] => pfs[i0].1));
                                        assert(pfs[i0].1 == value_ref@);
                                        assert(decreases_to!(pfs[i0].1 => pfs[i0].1->Object_0));
                                        assert(pfs[i0].1->Object_0 == vfv);
                                        assert(decreases_to!(vfv => vfv[k as int]));
                                        assert(decreases_to!(vfv[k as int] => vfv[k as int].1));
                                        assert(vfv[k as int].1 == tree_view(vfields@[k as int].1));
                                        assert(decreases_to!(plan_value@ => tree_view(
                                            vfields@[k as int].1,
                                        )));
                                    }
                                    let child = apply_plan(&vfields[k].1);
                                    match child {
                                        Option::Some(res) => {
                                            let key = vfields[k].0.clone();
                                            proof {
                                                lemma_fields_view_push(out@, (key, res));
                                            }
                                            out.push((key, res));
                                        },
                                        Option::None => {},
                                    }
                                    k += 1;
                                }
                                proof {
                                    assert(vfv.subrange(k as int, vfv.len() as int).len() == 0);
                                    assert(fields_view(out@) =~= apply_fields(vfv));
                                }
                                Option::Some(TreeValue::Object(out))
                            },
                            TreeValue::Array(vitems) => {
                                let ghost viv = items_view(vitems@);
                                let mut out: Vec<TreeValue> = Vec::new();
                                let mut k: usize = 0;
                                proof {
                                    lemma_items_view_len(vitems@);
                                    assert(viv.subrange(0, viv.len() as int) =~= viv);
                                    assert(items_view(out@) =~= Seq::<Tree>::empty());
                                }
                                while k < vitems.len()
                                    invariant
                                        k <= vitems@.len(),
                                        viv == items_view(vitems@),
                                        viv.len() == vitems@.len(),
                                        *value_ref == TreeValue::Array(*vitems),
                                        plan_value@ is Object,
                                        parse_plan(plan_value@) is Some,
                                        parse_plan(plan_value@)->Some_0.1 == value_ref@,
                                        apply_items(viv) == items_view(out@) + apply_items(
                                            viv.subrange(k as int, viv.len() as int),
                                        ),
                                    decreases vitems@.len() - k,
                                {
                                    let ghost tail = viv.subrange(k as int, viv.len() as int);
                                    proof {
                                        lemma_items_view_index(vitems@, k as int);
                                        assert(tail[0] == viv[k as int]);
                                        assert(tail.subrange(1, tail.len() as int) =~= viv.subrange(
                                            k + 1,
                                            viv.len() as int,
                                        ));
                                        let pfs = plan_value@->Object_0;
                                        lemma_lookup_index(pfs, value_key());
                                        let i0 = choose|i0: int|
                                            0 <= i0 < pfs.len() && pfs[i0].0 == value_key()
                                                && pfs[i0].1 == lookup(pfs, value_key())->Some_0;
                                        assert(decreases_to!(plan_value@ => plan_value@->Object_0));
                                        assert(decreases_to!(pfs => pfs[i0]));
                                        assert(decreases_to!(pfs[i0] => pfs[i0].1));
                                        assert(pfs[i0].1 == value_ref@);
                                        assert(decreases_to!(pfs[i0].1 => pfs[i0].1->Array_0));
                                        assert(pfs[i0].1->Array_0 == viv);
                                        assert(decreases_to!(viv => viv[k as int]));
                                        assert(viv[k as int] == tree_view(vitems@[k as int]));
                                        assert(decreases_to!(plan_value@ => tree_view(
                                            vitems@[k as int],
                                        )));
                                    }
                                    let child = apply_plan(&vitems[k]);
                                    match child {
                                        Option::Some(res) => {
                                            proof {
                                                lemma_items_view_push(out@, res);
                                            }
                                            out.push(res);
                                        },
                                        Option::None => {},
                                    }
                                    k += 1;
                                }
                                proof {
                                    assert(viv.subrange(k as int, viv.len() as int).len() == 0);
                                    assert(items_view(out@) =~= apply_items(viv));
                                }
                                Option::Some(TreeValue::Array(out))
                            },
                            _ => Option::Some(value_ref.deep_clone()),
                        }
                    }
                },
            }
        },
        _ => Option::Some(plan_value.deep_clone()),
    }
}

/// Applies a plan tree and materializes the output document. A plan whose
/// root resolves to absent yields the empty object, keeping the output
/// well-formed.
pub fn execute_plan_tree(plan_value: &TreeValue) -> (r: TreeValue)
    ensures
        match apply_spec(plan_value@) {
            Option::Some(t) => r@ == t,
            Option::None => r@ == Tree::Object(Seq::empty()),
        },
        crate::tree::tree_wf(plan_value@) ==> crate::tree::tree_wf(r@),
{
    proof {
        if crate::tree::tree_wf(plan_value@) {
            crate::laws::lemma_apply_wf(plan_value@);
        }
    }
    match apply_plan(plan_value) {
        Option::Some(v) => v,
        Option::None => TreeValue::Object(Vec::new()),
    }
}

} // verus!
