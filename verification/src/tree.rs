use vstd::prelude::*;

verus! {

/// The value model shared by input documents and plan trees: a closed tagged
/// union over objects, arrays and the scalar kinds (text, integer number,
/// boolean, null).
///
/// An object holds its fields as a vector of key/value pairs. The canonical
/// form keeps the keys in strictly ascending order (see [`tree_wf`]), the
/// order a sorted-map container naturally provides, which makes equal
/// documents structurally equal and serialized output stable.
pub enum TreeValue {
    Null,
    Boolean(bool),
    Number(i64),
    Text(String),
    Array(Vec<TreeValue>),
    Object(Vec<(String, TreeValue)>),
}

/// The mathematical model of a [`TreeValue`]: the same shape over `Seq` and
/// unbounded integers. All contracts of this crate speak of this type.
pub enum Tree {
    Null,
    Boolean(bool),
    Number(int),
    Text(Seq<char>),
    Array(Seq<Tree>),
    Object(Seq<(Seq<char>, Tree)>),
}

/// Model of a sequence of tree values, elementwise.
pub open spec fn items_view(s: Seq<TreeValue>) -> Seq<Tree>
    decreases s,
{
    if s.len() == 0 {
        Seq::empty()
    } else {
        seq![tree_view(s[0])] + items_view(s.subrange(1, s.len() as int))
    }
}

/// Model of a sequence of object fields, elementwise.
pub open spec fn fields_view(s: Seq<(String, TreeValue)>) -> Seq<(Seq<char>, Tree)>
    decreases s,
{
    if s.len() == 0 {
        Seq::empty()
    } else {
        seq![(s[0].0@, tree_view(s[0].1))] + fields_view(s.subrange(1, s.len() as int))
    }
}

/// Model of a single tree value.
pub open spec fn tree_view(t: TreeValue) -> Tree
    decreases t,
{
    match t {
        TreeValue::Null => Tree::Null,
        TreeValue::Boolean(b) => Tree::Boolean(b),
        TreeValue::Number(n) => Tree::Number(n as int),
        TreeValue::Text(s) => Tree::Text(s@),
        TreeValue::Array(items) => Tree::Array(items_view(items@)),
        TreeValue::Object(fields) => Tree::Object(fields_view(fields@)),
    }
}

impl View for TreeValue {
    type V = Tree;

    open spec fn view(&self) -> Tree {
        tree_view(*self)
    }
}

pub broadcast proof fn lemma_items_view_len(s: Seq<TreeValue>)
    ensures
        (#[trigger] items_view(s)).len() == s.len(),
    decreases s.len(),
{
    if s.len() > 0 {
        lemma_items_view_len(s.subrange(1, s.len() as int));
    }
}

pub broadcast proof fn lemma_items_view_index(s: Seq<TreeValue>, i: int)
    requires
        0 <= i < s.len(),
    ensures
        items_view(s).len() == s.len(),
        #[trigger] items_view(s)[i] == tree_view(s[i]),
    decreases s.len(),
{
    lemma_items_view_len(s);
    if i > 0 {
        lemma_items_view_index(s.subrange(1, s.len() as int), i - 1);
    }
}

pub broadcast proof fn lemma_fields_view_len(s: Seq<(String, TreeValue)>)
    ensures
        (#[trigger] fields_view(s)).len() == s.len(),
    decreases s.len(),
{
    if s.len() > 0 {
        lemma_fields_view_len(s.subrange(1, s.len() as int));
    }
}

pub broadcast proof fn lemma_fields_view_index(s: Seq<(String, TreeValue)>, i: int)
    requires
        0 <= i < s.len(),
    ensures
        fields_view(s).len() == s.len(),
        #[trigger] fields_view(s)[i] == (s[i].0@, tree_view(s[i].1)),
    decreases s.len(),
{
    lemma_fields_view_len(s);
    if i > 0 {
        lemma_fields_view_index(s.subrange(1, s.len() as int), i - 1);
    }
}

/// Strict lexicographic order on keys, by character code point. This agrees
/// with the byte-wise order of the keys' UTF-8 encodings, the order a sorted
/// string map uses.
pub open spec fn key_lt(a: Seq<char>, b: Seq<char>) -> bool
    decreases a.len(),
{
    if b.len() == 0 {
        false
    } else if a.len() == 0 {
        true
    } else if (a[0] as u32) < (b[0] as u32) {
        true
    } else if (b[0] as u32) < (a[0] as u32) {
        false
    } else {
        key_lt(a.subrange(1, a.len() as int), b.subrange(1, b.len() as int))
    }
}

/// The key order is total: two keys are equal or one is strictly below.
pub proof fn lemma_key_lt_trichotomy(a: Seq<char>, b: Seq<char>)
    ensures
        a == b || key_lt(a, b) || key_lt(b, a),
    decreases a.len(),
{
    if b.len() == 0 {
        if a.len() == 0 {
            assert(a =~= b);
        }
    } else if a.len() == 0 {
    } else if (a[0] as u32) < (b[0] as u32) {
    } else if (b[0] as u32) < (a[0] as u32) {
    } else {
        let ta = a.subrange(1, a.len() as int);
        let tb = b.subrange(1, b.len() as int);
        lemma_key_lt_trichotomy(ta, tb);
        if ta == tb {
            vstd::utf8::char_u32_cast(a[0], a[0] as u32);
            vstd::utf8::char_u32_cast(b[0], b[0] as u32);
            assert(a[0] == b[0]);
            assert(ta.len() == a.len() - 1);
            assert(tb.len() == b.len() - 1);
            assert(ta.len() == tb.len());
            assert(a.len() == b.len());
            assert forall|i: int| 0 <= i < a.len() implies a[i] == b[i] by {
                if i > 0 {
                    assert(a[i] == ta[i - 1]);
                    assert(b[i] == tb[i - 1]);
                    assert(ta[i - 1] == tb[i - 1]);
                }
            }
            assert(a =~= b);
        }
    }
}

/// The key order is irreflexive: no key is below itself.
pub proof fn lemma_key_lt_irrefl(a: Seq<char>)
    ensures
        !key_lt(a, a),
    decreases a.len(),
{
    if a.len() > 0 {
        lemma_key_lt_irrefl(a.subrange(1, a.len() as int));
    }
}

/// The key order is transitive.
pub proof fn lemma_key_lt_trans(a: Seq<char>, b: Seq<char>, c: Seq<char>)
    requires
        key_lt(a, b),
        key_lt(b, c),
    ensures
        key_lt(a, c),
    decreases a.len(),
{
    if c.len() == 0 {
    } else if a.len() == 0 {
    } else {
        if (a[0] as u32) < (b[0] as u32) {
        } else {
            if (b[0] as u32) < (c[0] as u32) {
            } else {
                lemma_key_lt_trans(
                    a.subrange(1, a.len() as int),
                    b.subrange(1, b.len() as int),
                    c.subrange(1, c.len() as int),
                );
            }
        }
    }
}

/// The value under the first field with the given key, if any.
pub open spec fn lookup(fs: Seq<(Seq<char>, Tree)>, key: Seq<char>) -> Option<Tree>
    decreases fs.len(),
{
    if fs.len() == 0 {
        Option::None
    } else if fs[0].0 == key {
        Option::Some(fs[0].1)
    } else {
        lookup(fs.subrange(1, fs.len() as int), key)
    }
}

/// A found value is one of the fields' values.
pub proof fn lemma_lookup_index(fs: Seq<(Seq<char>, Tree)>, key: Seq<char>)
    requires
        lookup(fs, key) is Some,
    ensures
        exists|i: int|
            0 <= i < fs.len() && fs[i].0 == key && fs[i].1 == lookup(fs, key)->Some_0,
    decreases fs.len(),
{
    if fs[0].0 == key {
        assert(fs[0].0 == key && fs[0].1 == lookup(fs, key)->Some_0);
    } else {
        lemma_lookup_index(fs.subrange(1, fs.len() as int), key);
        let j = choose|j: int|
            0 <= j < fs.len() - 1 && fs.subrange(1, fs.len() as int)[j].0 == key
                && fs.subrange(1, fs.len() as int)[j].1 == lookup(fs, key)->Some_0;
        assert(fs[j + 1].0 == key && fs[j + 1].1 == lookup(fs, key)->Some_0);
    }
}

/// Object keys strictly ascending, so in particular unique.
pub open spec fn sorted_keys(fs: Seq<(Seq<char>, Tree)>) -> bool {
    forall|i: int, j: int| 0 <= i < j < fs.len() ==> key_lt(fs[i].0, fs[j].0)
}

/// Well-formedness of a tree: every object holds its fields in strictly
/// ascending key order, recursively.
pub open spec fn tree_wf(t: Tree) -> bool
    decreases t,
{
    match t {
        Tree::Array(items) => forall|i: int|
            0 <= i < items.len() ==> tree_wf(#[trigger] items[i]),
        Tree::Object(fields) => sorted_keys(fields) && forall|i: int|
            0 <= i < fields.len() ==> tree_wf(#[trigger] fields[i].1),
        _ => true,
    }
}

impl TreeValue {
    /// Structural deep copy; the model is unchanged.
    pub fn deep_clone(&self) -> (r: TreeValue)
        ensures
            r@ == self@,
        decreases *self,
    {
        match self {
            TreeValue::Null => TreeValue::Null,
            TreeValue::Boolean(b) => TreeValue::Boolean(*b),
            TreeValue::Number(n) => TreeValue::Number(*n),
            TreeValue::Text(s) => TreeValue::Text(s.clone()),
            TreeValue::Array(items) => {
                let mut out: Vec<TreeValue> = Vec::new();
                let mut i: usize = 0;
                while i < items.len()
                    invariant
                        i <= items@.len(),
                        out@.len() == i,
                        *self == TreeValue::Array(*items),
                        forall|j: int| 0 <= j < i ==> tree_view(#[trigger] out@[j]) == tree_view(items@[j]),
                    decreases items@.len() - i,
                {
                    proof {
                        assert(decreases_to!(*self => self->Array_0));
                        assert(decreases_to!(*items => items@));
                        assert(decreases_to!(items@ => items@[i as int]));
                        assert(decreases_to!(*self => items@[i as int]));
                    }
                    let c = items[i].deep_clone();
                    out.push(c);
                    i += 1;
                }
                proof {
                    lemma_items_view_pointwise(out@, items@);
                }
                TreeValue::Array(out)
            },
            TreeValue::Object(fields) => {
                let mut out: Vec<(String, TreeValue)> = Vec::new();
                let mut i: usize = 0;
                while i < fields.len()
                    invariant
                        i <= fields@.len(),
                        out@.len() == i,
                        *self == TreeValue::Object(*fields),
                        forall|j: int| 0 <= j < i ==> (#[trigger] out@[j]).0@ == fields@[j].0@
                            && tree_view(out@[j].1) == tree_view(fields@[j].1),
                    decreases fields@.len() - i,
                {
                    proof {
                        assert(decreases_to!(*self => self->Object_0));
                        assert(decreases_to!(*fields => fields@));
                        assert(decreases_to!(fields@ => fields@[i as int]));
                        assert(decreases_to!(fields@[i as int] => fields@[i as int].1));
                        assert(decreases_to!(*self => fields@[i as int].1));
                    }
                    let c = fields[i].1.deep_clone();
                    let k = fields[i].0.clone();
                    out.push((k, c));
                    i += 1;
                }
                proof {
                    lemma_fields_view_pointwise(out@, fields@);
                }
                TreeValue::Object(out)
            },
        }
    }

    /// Deep structural equality: decides equality of the models.
    pub fn deep_eq(&self, other: &TreeValue) -> (r: bool)
        ensures
            r == (self@ == other@),
        decreases *self,
    {
        match self {
            TreeValue::Null => match other {
                TreeValue::Null => true,
                _ => false,
            },
            TreeValue::Boolean(x) => match other {
                TreeValue::Boolean(y) => *x == *y,
                _ => false,
            },
            TreeValue::Number(x) => match other {
                TreeValue::Number(y) => *x == *y,
                _ => false,
            },
            TreeValue::Text(x) => match other {
                TreeValue::Text(y) => x.eq(y),
                _ => false,
            },
            TreeValue::Array(v1) => match other {
                TreeValue::Array(v2) => {
                    proof {
                        lemma_items_view_len(v1@);
                        lemma_items_view_len(v2@);
                    }
                    if v1.len() != v2.len() {
                        return false;
                    }
                    let mut i: usize = 0;
                    while i < v1.len()
                        invariant
                            i <= v1@.len(),
                            v1@.len() == v2@.len(),
                            *self == TreeValue::Array(*v1),
                            *other == TreeValue::Array(*v2),
                            forall|j: int| 0 <= j < i ==> tree_view(#[trigger] v1@[j]) == tree_view(v2@[j]),
                        decreases v1@.len() - i,
                    {
                        proof {
                            assert(decreases_to!(*self => self->Array_0));
                            assert(decreases_to!(*v1 => v1@));
                            assert(decreases_to!(v1@ => v1@[i as int]));
                            assert(decreases_to!(*self => v1@[i as int]));
                        }
                        if !v1[i].deep_eq(&v2[i]) {
                            proof {
                                lemma_items_view_index(v1@, i as int);
                                lemma_items_view_index(v2@, i as int);
                            }
                            return false;
                        }
                        i += 1;
                    }
                    proof {
                        lemma_items_view_pointwise(v1@, v2@);
                    }
                    true
                },
                _ => false,
            },
            TreeValue::Object(f1) => match other {
                TreeValue::Object(f2) => {
                    proof {
                        lemma_fields_view_len(f1@);
                        lemma_fields_view_len(f2@);
                    }
                    if f1.len() != f2.len() {
                        return false;
                    }
                    let mut i: usize = 0;
                    while i < f1.len()
                        invariant
                            i <= f1@.len(),
                            f1@.len() == f2@.len(),
                            *self == TreeValue::Object(*f1),
                            *other == TreeValue::Object(*f2),
                            forall|j: int| 0 <= j < i ==> (#[trigger] f1@[j]).0@ == f2@[j].0@
                                && tree_view(f1@[j].1) == tree_view(f2@[j].1),
                        decreases f1@.len() - i,
                    {
                        if !f1[i].0.eq(&f2[i].0) {
                            proof {
                                lemma_fields_view_index(f1@, i as int);
                                lemma_fields_view_index(f2@, i as int);
                            }
                            return false;
                        }
                        proof {
                            assert(decreases_to!(*self => self->Object_0));
                            assert(decreases_to!(*f1 => f1@));
                            assert(decreases_to!(f1@ => f1@[i as int]));
                            assert(decreases_to!(f1@[i as int] => f1@[i as int].1));
                            assert(decreases_to!(*self => f1@[i as int].1));
                        }
                        if !f1[i].1.deep_eq(&f2[i].1) {
                            proof {
                                lemma_fields_view_index(f1@, i as int);
                                lemma_fields_view_index(f2@, i as int);
                            }
                            return false;
                        }
                        i += 1;
                    }
                    proof {
                        lemma_fields_view_pointwise(f1@, f2@);
                    }
                    true
                },
                _ => false,
            },
        }
    }
}

/// Decides the key order [`key_lt`] on two strings.
pub fn str_key_lt(a: &String, b: &String) -> (r: bool)
    ensures
        r == key_lt(a@, b@),
{
    let alen = a.as_str().unicode_len();
    let blen = b.as_str().unicode_len();
    let mut i: usize = 0;
    proof {
        assert(a@.subrange(0, alen as int) =~= a@);
        assert(b@.subrange(0, blen as int) =~= b@);
    }
    while i < alen && i < blen
        invariant
            i <= alen,
            i <= blen,
            alen == a@.len(),
            blen == b@.len(),
            key_lt(a@, b@) == key_lt(
                a@.subrange(i as int, alen as int),
                b@.subrange(i as int, blen as int),
            ),
        decreases alen - i,
    {
        let ca = a.as_str().get_char(i);
        let cb = b.as_str().get_char(i);
        proof {
            assert(a@.subrange(i as int, alen as int)[0] == a@[i as int]);
            assert(b@.subrange(i as int, blen as int)[0] == b@[i as int]);
        }
        if (ca as u32) < (cb as u32) {
            return true;
        }
        if (cb as u32) < (ca as u32) {
            return false;
        }
        proof {
            assert(a@.subrange(i as int, alen as int).subrange(
                1,
                a@.subrange(i as int, alen as int).len() as int,
            ) =~= a@.subrange(i + 1, alen as int));
            assert(b@.subrange(i as int, blen as int).subrange(
                1,
                b@.subrange(i as int, blen as int).len() as int,
            ) =~= b@.subrange(i + 1, blen as int));
        }
        i += 1;
    }
    proof {
        if i < blen {
            assert(a@.subrange(i as int, alen as int).len() == 0);
        } else {
            assert(b@.subrange(i as int, blen as int).len() == 0);
        }
    }
    i < blen
}

/// The first field of `fields` holding `key`, as [`lookup`] finds it.
pub fn obj_get<'a>(fields: &'a Vec<(String, TreeValue)>, key: &String) -> (r: Option<
    &'a TreeValue,
>)
    ensures
        match r {
            Option::Some(v) => lookup(fields_view(fields@), key@) == Option::Some(v@),
            Option::None => lookup(fields_view(fields@), key@) is None,
        },
{
    let ghost fv = fields_view(fields@);
    let mut i: usize = 0;
    proof {
        lemma_fields_view_len(fields@);
        assert(fv.subrange(0, fv.len() as int) =~= fv);
    }
    while i < fields.len()
        invariant
            i <= fields@.len(),
            fv == fields_view(fields@),
            fv.len() == fields@.len(),
            lookup(fv, key@) == lookup(fv.subrange(i as int, fv.len() as int), key@),
        decreases fields@.len() - i,
    {
        let ghost tail = fv.subrange(i as int, fv.len() as int);
        proof {
            lemma_fields_view_index(fields@, i as int);
            assert(tail[0] == fv[i as int]);
        }
        if fields[i].0.eq(key) {
            return Option::Some(&fields[i].1);
        }
        proof {
            assert(tail.subrange(1, tail.len() as int) =~= fv.subrange(
                i + 1,
                fv.len() as int,
            ));
        }
        i += 1;
    }
    proof {
        assert(fv.subrange(i as int, fv.len() as int).len() == 0);
    }
    Option::None
}

/// Pointwise equal element models make equal sequence models.
pub proof fn lemma_items_view_pointwise(s1: Seq<TreeValue>, s2: Seq<TreeValue>)
    requires
        s1.len() == s2.len(),
        forall|j: int| 0 <= j < s1.len() ==> tree_view(#[trigger] s1[j]) == tree_view(s2[j]),
    ensures
        items_view(s1) == items_view(s2),
{
    lemma_items_view_len(s1);
    lemma_items_view_len(s2);
    assert forall|j: int| 0 <= j < s1.len() implies items_view(s1)[j] == items_view(s2)[j] by {
        lemma_items_view_index(s1, j);
        lemma_items_view_index(s2, j);
    }
    assert(items_view(s1) =~= items_view(s2));
}

/// Pointwise equal keys and value models make equal field-sequence models.
pub proof fn lemma_fields_view_pointwise(s1: Seq<(String, TreeValue)>, s2: Seq<(String, TreeValue)>)
    requires
        s1.len() == s2.len(),
        forall|j: int| 0 <= j < s1.len() ==> (#[trigger] s1[j]).0@ == s2[j].0@
            && tree_view(s1[j].1) == tree_view(s2[j].1),
    ensures
        fields_view(s1) == fields_view(s2),
{
    lemma_fields_view_len(s1);
    lemma_fields_view_len(s2);
    assert forall|j: int| 0 <= j < s1.len() implies fields_view(s1)[j] == fields_view(s2)[j] by {
        lemma_fields_view_index(s1, j);
        lemma_fields_view_index(s2, j);
    }
    assert(fields_view(s1) =~= fields_view(s2));
}

/// Appending one element extends the sequence model by that element's model.
pub proof fn lemma_items_view_push(s: Seq<TreeValue>, x: TreeValue)
    ensures
        items_view(s.push(x)) == items_view(s).push(tree_view(x)),
{
    lemma_items_view_len(s.push(x));
    lemma_items_view_len(s);
    assert forall|j: int| 0 <= j < s.len() + 1 implies items_view(s.push(x))[j] == items_view(
        s,
    ).push(tree_view(x))[j] by {
        lemma_items_view_index(s.push(x), j);
        if j < s.len() {
            lemma_items_view_index(s, j);
        }
    }
    assert(items_view(s.push(x)) =~= items_view(s).push(tree_view(x)));
}

/// Appending one field extends the field-sequence model by that field's model.
pub proof fn lemma_fields_view_push(s: Seq<(String, TreeValue)>, x: (String, TreeValue))
    ensures
        fields_view(s.push(x)) == fields_view(s).push((x.0@, tree_view(x.1))),
{
    lemma_fields_view_len(s.push(x));
    lemma_fields_view_len(s);
    assert forall|j: int| 0 <= j < s.len() + 1 implies fields_view(s.push(x))[j] == fields_view(
        s,
    ).push((x.0@, tree_view(x.1)))[j] by {
        lemma_fields_view_index(s.push(x), j);
        if j < s.len() {
            lemma_fields_view_index(s, j);
        }
    }
    assert(fields_view(s.push(x)) =~= fields_view(s).push((x.0@, tree_view(x.1))));
}

} // verus!
