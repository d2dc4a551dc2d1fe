use vstd::prelude::*;

use crate::tree::TreeValue;
use crate::tree::Tree;
use crate::tree::tree_view;
use crate::tree::fields_view;
use crate::tree::lookup;
use crate::tree::lemma_fields_view_len;
use crate::tree::lemma_fields_view_index;

verus! {

/// Per-node classification in a plan tree. A closed set: every consumer
/// handles all five variants.
#[derive(Clone, Copy, PartialEq, Eq, Structural, Debug)]
pub enum Status {
    /// The node's children were individually compared.
    Merge,
    /// Unchanged from the first document.
    Keep,
    /// Present only in the second document.
    Add,
    /// Same position, changed scalar value.
    Overwrite,
    /// Dropped from the output; only ever set by hand-editing a plan.
    Delete,
}

/// The serialized name of each status.
pub open spec fn status_text(st: Status) -> Seq<char> {
    match st {
        Status::Merge => "merge"@,
        Status::Keep => "keep"@,
        Status::Add => "add"@,
        Status::Overwrite => "overwrite"@,
        Status::Delete => "delete"@,
    }
}

/// Key under which a serialized plan node holds its status name.
pub open spec fn status_key() -> Seq<char> {
    "_status"@
}

/// Key under which a serialized plan node holds its value.
pub open spec fn value_key() -> Seq<char> {
    "_value"@
}

/// Key under which a serialized plan node holds the prior value, when any.
pub open spec fn old_value_key() -> Seq<char> {
    "_old_value"@
}

/// The serialized name of a status.
pub fn status_string(st: Status) -> (r: String)
    ensures
        r@ == status_text(st),
{
    match st {
        Status::Merge => "merge".to_owned(),
        Status::Keep => "keep".to_owned(),
        Status::Add => "add".to_owned(),
        Status::Overwrite => "overwrite".to_owned(),
        Status::Delete => "delete".to_owned(),
    }
}

/// Reads a status back from its serialized name; unknown names are rejected.
pub open spec fn parse_status(s: Seq<char>) -> Option<Status> {
    if s == status_text(Status::Merge) {
        Option::Some(Status::Merge)
    } else if s == status_text(Status::Keep) {
        Option::Some(Status::Keep)
    } else if s == status_text(Status::Add) {
        Option::Some(Status::Add)
    } else if s == status_text(Status::Overwrite) {
        Option::Some(Status::Overwrite)
    } else if s == status_text(Status::Delete) {
        Option::Some(Status::Delete)
    } else {
        Option::None
    }
}

/// Decides [`parse_status`].
pub fn status_of_string(s: &String) -> (r: Option<Status>)
    ensures
        r == parse_status(s@),
{
    if s.eq(&"merge".to_owned()) {
        Option::Some(Status::Merge)
    } else if s.eq(&"keep".to_owned()) {
        Option::Some(Status::Keep)
    } else if s.eq(&"add".to_owned()) {
        Option::Some(Status::Add)
    } else if s.eq(&"overwrite".to_owned()) {
        Option::Some(Status::Overwrite)
    } else if s.eq(&"delete".to_owned()) {
        Option::Some(Status::Delete)
    } else {
        Option::None
    }
}

/// One node of a plan tree in structured form: the status, the node's value
/// (whose children are themselves serialized plan nodes when the status is
/// `Merge`), and, for overwritten scalars only, the prior value.
pub struct PlanNode {
    pub status: Status,
    pub value: TreeValue,
    pub old_value: Option<TreeValue>,
}

/// Elementwise model of an optional tree value.
pub open spec fn opt_tree_view(o: Option<TreeValue>) -> Option<Tree> {
    match o {
        Option::None => Option::None,
        Option::Some(v) => Option::Some(tree_view(v)),
    }
}

/// The serialized form of a plan node: a keyed map holding the status name
/// under `_status`, the value under `_value` and, only when present, the
/// prior value under `_old_value`. The three keys are listed in ascending
/// key order, the order a sorted map serializes them in.
pub open spec fn mk_plan(st: Status, v: Tree, old: Option<Tree>) -> Tree {
    match old {
        Option::None => Tree::Object(
            seq![(status_key(), Tree::Text(status_text(st))), (value_key(), v)],
        ),
        Option::Some(o) => Tree::Object(
            seq![
                (old_value_key(), o),
                (status_key(), Tree::Text(status_text(st))),
                (value_key(), v),
            ],
        ),
    }
}

impl View for PlanNode {
    type V = Tree;

    open spec fn view(&self) -> Tree {
        mk_plan(self.status, self.value@, opt_tree_view(self.old_value))
    }
}

impl PlanNode {
    /// Serializes the structured node into its keyed-map tree form.
    pub fn to_tree(&self) -> (r: TreeValue)
        ensures
            r@ == self@,
    {
        let mut fields: Vec<(String, TreeValue)> = Vec::new();
        match &self.old_value {
            Option::Some(o) => fields.push(("_old_value".to_owned(), o.deep_clone())),
            Option::None => {},
        }
        fields.push(("_status".to_owned(), TreeValue::Text(status_string(self.status))));
        fields.push(("_value".to_owned(), self.value.deep_clone()));
        proof {
            lemma_fields_view_len(fields@);
            lemma_fields_view_index(fields@, 0);
            lemma_fields_view_index(fields@, 1);
            if self.old_value is Some {
                lemma_fields_view_index(fields@, 2);
                assert(fields_view(fields@) =~= seq![
                    (old_value_key(), tree_view(self.old_value->Some_0)),
                    (status_key(), Tree::Text(status_text(self.status))),
                    (value_key(), tree_view(self.value)),
                ]);
            } else {
                assert(fields_view(fields@) =~= seq![
                    (status_key(), Tree::Text(status_text(self.status))),
                    (value_key(), tree_view(self.value)),
                ]);
            }
        }
        TreeValue::Object(fields)
    }
}

/// The prior value a serialized plan node carries: a missing or null
/// `_old_value` field reads as absent.
pub open spec fn parse_old(fs: Seq<(Seq<char>, Tree)>) -> Option<Tree> {
    match lookup(fs, old_value_key()) {
        Option::Some(Tree::Null) => Option::None,
        Option::Some(o) => Option::Some(o),
        Option::None => Option::None,
    }
}

/// Attempts to read a tree as a serialized plan node: a keyed map holding a
/// known status name under `_status` and any value under `_value`; further
/// fields are ignored. Anything else is no plan node and is treated as an
/// opaque literal by the applier.
pub open spec fn parse_plan(p: Tree) -> Option<(Status, Tree, Option<Tree>)> {
    match p {
        Tree::Object(fs) => match lookup(fs, status_key()) {
            Option::Some(Tree::Text(name)) => match parse_status(name) {
                Option::Some(st) => match lookup(fs, value_key()) {
                    Option::Some(v) => Option::Some((st, v, parse_old(fs))),
                    Option::None => Option::None,
                },
                Option::None => Option::None,
            },
            _ => Option::None,
        },
        _ => Option::None,
    }
}

/// The three field keys of a serialized plan node are pairwise distinct, and
/// each status name parses back to its status.
pub proof fn lemma_plan_keys_distinct()
    ensures
        status_key() != value_key(),
        status_key() != old_value_key(),
        value_key() != old_value_key(),
        forall|st: Status| #[trigger] parse_status(status_text(st)) == Option::Some(st),
{
    reveal_strlit("_status");
    reveal_strlit("_value");
    reveal_strlit("_old_value");
    reveal_strlit("merge");
    reveal_strlit("keep");
    reveal_strlit("add");
    reveal_strlit("overwrite");
    reveal_strlit("delete");
    assert(status_key().len() == 7);
    assert(value_key().len() == 6);
    assert(old_value_key().len() == 10);
    assert forall|st: Status| #[trigger] parse_status(status_text(st)) == Option::Some(st) by {
        assert(status_text(Status::Merge).len() == 5);
        assert(status_text(Status::Keep).len() == 4);
        assert(status_text(Status::Add).len() == 3);
        assert(status_text(Status::Overwrite).len() == 9);
        assert(status_text(Status::Delete).len() == 6);
    }
}

/// Reading back a freshly serialized plan node yields its status and value.
pub proof fn lemma_parse_mk_plan(st: Status, v: Tree, old: Option<Tree>)
    ensures
        parse_plan(mk_plan(st, v, old)) is Some,
        parse_plan(mk_plan(st, v, old))->Some_0.0 == st,
        parse_plan(mk_plan(st, v, old))->Some_0.1 == v,
{
    lemma_plan_keys_distinct();
    reveal_with_fuel(lookup, 4);
    let fs = mk_plan(st, v, old)->Object_0;
    match old {
        Option::None => {
            assert(fs.subrange(1, 2) =~= seq![(value_key(), v)]);
            assert(lookup(fs, status_key()) == Option::Some(Tree::Text(status_text(st))));
            assert(lookup(fs, value_key()) == Option::Some(v));
        },
        Option::Some(o) => {
            assert(fs.subrange(1, 3) =~= seq![
                (status_key(), Tree::Text(status_text(st))),
                (value_key(), v),
            ]);
            assert(fs.subrange(1, 3).subrange(1, 2) =~= seq![(value_key(), v)]);
            assert(lookup(fs, status_key()) == Option::Some(Tree::Text(status_text(st))));
            assert(lookup(fs, value_key()) == Option::Some(v));
        },
    }
}

/// Attempts to read an object's fields as a serialized plan node, returning
/// the status and a reference to the value, as [`parse_plan`] reads the
/// object's model.
pub fn parse_node<'a>(fields: &'a Vec<(String, TreeValue)>) -> (r: Option<(Status, &'a TreeValue)>)
    ensures
        match r {
            Option::Some(p) => {
                &&& parse_plan(Tree::Object(fields_view(fields@))) is Some
                &&& parse_plan(Tree::Object(fields_view(fields@)))->Some_0.0 == p.0
                &&& parse_plan(Tree::Object(fields_view(fields@)))->Some_0.1 == p.1@
            },
            Option::None => parse_plan(Tree::Object(fields_view(fields@))) is None,
        },
{
    let sv = crate::tree::obj_get(fields, &"_status".to_owned());
    match sv {
        Option::Some(stree) => match stree {
            TreeValue::Text(name) => match status_of_string(name) {
                Option::Some(st) => {
                    let vv = crate::tree::obj_get(fields, &"_value".to_owned());
                    match vv {
                        Option::Some(v) => Option::Some((st, v)),
                        Option::None => Option::None,
                    }
                },
                Option::None => Option::None,
            },
            _ => Option::None,
        },
        Option::None => Option::None,
    }
}

} // verus!
