//! Trimming of resource dictionaries to the names that a content stream uses.

use vstd::prelude::*;
use crate::document::{resolve, Content, Operator, PdfDocument};
use crate::idmap::NameSet;
use crate::object::{
    dict_get, dict_get_insert, dict_has, dict_insert, dict_is_name, new_ref, obj_dict, Dict, Entries, Obj,
    Object, ObjectRef,
};
use crate::text::str_eq;
use super::copy::{deeper, levels, load_or_null, remap};
use super::direct::{direct, direct_copy};
use super::again::{form_entries_remember, resources_remember};
use super::usage::{all_use, resources_of, scan_all_used};
use super::{next_id, object_at, put, with_slot, Builder, Env, State, MAX_DEPTH};

verus! {

/// A category of a resource dictionary.
#[derive(Clone, Copy, Debug, PartialEq, Eq, Structural)]
pub enum Category {
    Font,
    XObject,
    ExtGState,
    ColorSpace,
    Pattern,
    Shading,
    Properties,
}

/// The categories, in the order in which they are trimmed.
pub open spec fn categories() -> Seq<Category> {
    seq![
        Category::Font,
        Category::XObject,
        Category::ExtGState,
        Category::ColorSpace,
        Category::Pattern,
        Category::Shading,
        Category::Properties,
    ]
}

impl Category {
    /// The key of the category in a resource dictionary.
    pub open spec fn spec_key(self) -> Seq<char> {
        match self {
            Category::Font => "Font"@,
            Category::XObject => "XObject"@,
            Category::ExtGState => "ExtGState"@,
            Category::ColorSpace => "ColorSpace"@,
            Category::Pattern => "Pattern"@,
            Category::Shading => "Shading"@,
            Category::Properties => "Properties"@,
        }
    }

    /// The key of the category in a resource dictionary.
    pub fn key(self) -> (k: &'static str)
        ensures
            k@ == self.spec_key(),
    {
        match self {
            Category::Font => "Font",
            Category::XObject => "XObject",
            Category::ExtGState => "ExtGState",
            Category::ColorSpace => "ColorSpace",
            Category::Pattern => "Pattern",
            Category::Shading => "Shading",
            Category::Properties => "Properties",
        }
    }
}

/// The resources that a content stream uses: the names, by category.
pub type Used = Set<(Category, Seq<char>)>;

/// The resource that an operator names.
pub open spec fn op_use(op: Operator) -> Option<(Category, Seq<char>)> {
    match op {
        Operator::Tf { font, .. } => Some((Category::Font, font@)),
        Operator::Do { name } => Some((Category::XObject, name@)),
        Operator::SetExtGState { dict_name } => Some((Category::ExtGState, dict_name@)),
        Operator::SetFillColorSpace { name } => Some((Category::ColorSpace, name@)),
        Operator::SetStrokeColorSpace { name } => Some((Category::ColorSpace, name@)),
        Operator::SetFillColorN { name: Some(name), .. } => Some((Category::Pattern, name@)),
        Operator::SetStrokeColorN { name: Some(name), .. } => Some((Category::Pattern, name@)),
        Operator::PaintShading { name } => Some((Category::Shading, name@)),
        Operator::BeginMarkedContentDict { properties: Object::Name(n), .. } => Some(
            (Category::Properties, n@),
        ),
        Operator::MarkedContentPointDict { properties: Object::Name(n), .. } => Some(
            (Category::Properties, n@),
        ),
        Operator::InlineImage { color_space: Some(name) } => Some((Category::ColorSpace, name@)),
        _ => None,
    }
}

/// The resources that the operators name.
pub open spec fn ops_use(ops: Seq<Operator>) -> Used {
    Set::new(
        |p: (Category, Seq<char>)| exists|i: int| 0 <= i < ops.len() && op_use(#[trigger] ops[i]) == Some(p),
    )
}

/// The resources that a content names. Content that could not be read names none.
pub open spec fn content_use(content: Content) -> Used {
    ops_use(content.operators())
}

/// The resource names that a content stream uses, per category.
pub struct UsedNames {
    pub fonts: NameSet,
    pub xobjects: NameSet,
    pub extgstates: NameSet,
    pub colorspaces: NameSet,
    pub patterns: NameSet,
    pub shadings: NameSet,
    pub properties: NameSet,
    /// Is everything used?
    pub all: bool,
}

impl View for UsedNames {
    type V = Used;

    open spec fn view(&self) -> Used {
        Set::new(|p: (Category, Seq<char>)| self.all || self.names(p.0).contains(p.1))
    }
}

impl UsedNames {
    /// The names of one category.
    pub open spec fn names(&self, category: Category) -> Set<Seq<char>> {
        match category {
            Category::Font => self.fonts@,
            Category::XObject => self.xobjects@,
            Category::ExtGState => self.extgstates@,
            Category::ColorSpace => self.colorspaces@,
            Category::Pattern => self.patterns@,
            Category::Shading => self.shadings@,
            Category::Properties => self.properties@,
        }
    }

    pub fn new() -> (u: Self)
        ensures
            u@ == Set::<(Category, Seq<char>)>::empty(),
    {
        let u = UsedNames {
            fonts: NameSet::new(),
            xobjects: NameSet::new(),
            extgstates: NameSet::new(),
            colorspaces: NameSet::new(),
            patterns: NameSet::new(),
            shadings: NameSet::new(),
            properties: NameSet::new(),
            all: false,
        };
        assert(u@ =~= Set::empty());
        u
    }

    /// Record a name of one category.
    pub fn insert(&mut self, category: Category, name: &String)
        ensures
            final(self)@ == old(self)@.insert((category, name@)),
    {
        match category {
            Category::Font => self.fonts.insert(name),
            Category::XObject => self.xobjects.insert(name),
            Category::ExtGState => self.extgstates.insert(name),
            Category::ColorSpace => self.colorspaces.insert(name),
            Category::Pattern => self.patterns.insert(name),
            Category::Shading => self.shadings.insert(name),
            Category::Properties => self.properties.insert(name),
        }
        assert(self@ =~= old(self)@.insert((category, name@)));
    }
}

fn scan_op_used(op: &Operator, used: &mut UsedNames)
    ensures
        final(used)@ == (match op_use(*op) {
            Some(p) => old(used)@.insert(p),
            None => old(used)@,
        }),
{
    match op {
        Operator::Tf { font, .. } => used.insert(Category::Font, font),
        Operator::Do { name } => used.insert(Category::XObject, name),
        Operator::SetExtGState { dict_name } => used.insert(Category::ExtGState, dict_name),
        Operator::SetFillColorSpace { name } => used.insert(Category::ColorSpace, name),
        Operator::SetStrokeColorSpace { name } => used.insert(Category::ColorSpace, name),
        Operator::SetFillColorN { name, .. } => {
            if let Some(name) = name {
                used.insert(Category::Pattern, name);
            }
        },
        Operator::SetStrokeColorN { name, .. } => {
            if let Some(name) = name {
                used.insert(Category::Pattern, name);
            }
        },
        Operator::PaintShading { name } => used.insert(Category::Shading, name),
        Operator::BeginMarkedContentDict { properties, .. } => {
            if let Object::Name(n) = properties {
                used.insert(Category::Properties, n);
            }
        },
        Operator::MarkedContentPointDict { properties, .. } => {
            if let Object::Name(n) = properties {
                used.insert(Category::Properties, n);
            }
        },
        Operator::InlineImage { color_space } => {
            if let Some(name) = color_space {
                used.insert(Category::ColorSpace, name);
            }
        },
        _ => {},
    }
}

/// Record the resource names that a content stream uses. Content that could not be read uses none.
pub fn scan_used(content: &Content, used: &mut UsedNames)
    ensures
        final(used)@ == old(used)@.union(content_use(*content)),
{
    match content {
        Content::Operators(ops) => {
            let mut i: usize = 0;
            assert(used@ =~= old(used)@.union(ops_use(ops@.take(0))));
            while i < ops.len()
                invariant
                    i <= ops@.len(),
                    used@ == old(used)@.union(ops_use(ops@.take(i as int))),
                decreases ops@.len() - i,
            {
                scan_op_used(&ops[i], used);
                proof {
                    let a = ops@.take(i as int);
                    let b = ops@.take(i + 1);
                    assert forall|p: (Category, Seq<char>)| ops_use(b).contains(p) == (ops_use(
                        a,
                    ).contains(p) || op_use(ops@[i as int]) == Some(p)) by {
                        if ops_use(a).contains(p) {
                            let j = choose|j: int| 0 <= j < a.len() && op_use(#[trigger] a[j]) == Some(p);
                            assert(b[j] == a[j]);
                        }
                        if op_use(ops@[i as int]) == Some(p) {
                            assert(b[i as int] == ops@[i as int]);
                        }
                        if ops_use(b).contains(p) {
                            let j = choose|j: int| 0 <= j < b.len() && op_use(#[trigger] b[j]) == Some(p);
                            if j < i {
                                assert(a[j] == b[j]);
                            }
                        }
                    }
                    assert(used@ =~= old(used)@.union(ops_use(b)));
                }
                i += 1;
            }
            assert(ops@.take(i as int) =~= ops@);
        },
        _ => {
            assert(used@ =~= old(used)@.union(content_use(*content)));
        },
    }
}

/// The number of the form XObject that `v` refers to, where it refers to one.
pub open spec fn form_ref(doc: PdfDocument, v: Obj) -> Option<nat> {
    match v {
        Obj::Reference(id, _) => match doc.lookup(id) {
            Some(o) => match obj_dict(o) {
                Some(d) => if dict_is_name(d, "Subtype"@, "Form"@) {
                    Some(id)
                } else {
                    None
                },
                None => None,
            },
            None => None,
        },
        _ => None,
    }
}

/// The dictionary under `key`, directly or through a reference.
pub open spec fn sub_dict(doc: PdfDocument, d: Entries, key: Seq<char>) -> Option<Entries> {
    match dict_get(d, key) {
        Some(o) => match resolve(doc, o) {
            Some(o) => obj_dict(o),
            None => None,
        },
        None => None,
    }
}

/// Copy one resource: a form XObject trimmed, where that is asked for, anything else whole.
pub open spec fn import_resource(
    env: Env,
    st: State,
    src: nat,
    v: Obj,
    category: Category,
    depth: nat,
) -> (State, Obj)
    decreases levels(depth), 1nat, 0nat,
{
    if category == Category::XObject && env.opts.trim_forms && depth < MAX_DEPTH && form_ref(
        env.docs[src as int],
        v,
    ) is Some {
        let (s1, n) = import_form_trimmed(
            env,
            st,
            src,
            form_ref(env.docs[src as int], v)->0,
            depth + 1,
        );
        (s1, new_ref(n))
    } else {
        remap(env, st, src, v, depth + 1)
    }
}

/// Copy the entries of one category whose names are used.
pub open spec fn trim_entries(
    env: Env,
    st: State,
    src: nat,
    sub: Entries,
    used: Used,
    category: Category,
    depth: nat,
) -> (State, Entries)
    decreases levels(depth), 2nat, sub.len(),
{
    if sub.len() == 0 {
        (st, Seq::empty())
    } else {
        let (s1, out) = trim_entries(env, st, src, sub.drop_last(), used, category, depth);
        if used.contains((category, sub.last().0)) {
            let (s2, o) = import_resource(env, s1, src, sub.last().1, category, depth);
            (s2, dict_insert(out, sub.last().0, o))
        } else {
            (s1, out)
        }
    }
}

/// Copy what is used of the first `n` categories.
pub open spec fn trim_categories(
    env: Env,
    st: State,
    src: nat,
    res: Entries,
    used: Used,
    depth: nat,
    n: nat,
) -> (State, Entries)
    decreases levels(depth), 3nat, n,
{
    if n == 0 {
        (st, Seq::empty())
    } else {
        let (s1, out) = trim_categories(env, st, src, res, used, depth, (n - 1) as nat);
        let category = categories()[n - 1];
        match sub_dict(env.docs[src as int], res, category.spec_key()) {
            Some(sub) => {
                let (s2, kept) = trim_entries(env, s1, src, sub, used, category, depth);
                if kept.len() == 0 {
                    (s2, out)
                } else {
                    (s2, dict_insert(out, category.spec_key(), Obj::Dictionary(kept)))
                }
            },
            None => (s1, out),
        }
    }
}

/// The resources `res` with what is used of each category copied, and nothing else but `ProcSet`.
pub open spec fn trimmed_resources(
    env: Env,
    st: State,
    src: nat,
    res: Obj,
    used: Used,
    depth: nat,
) -> (State, Obj)
    decreases levels(depth), 4nat, 0nat,
{
    match obj_dict(res) {
        None => (st, Obj::Dictionary(Seq::empty())),
        Some(d) => {
            let (s1, out) = trim_categories(env, st, src, d, used, depth, categories().len());
            match dict_get(d, "ProcSet"@) {
                Some(ps) => (
                    s1,
                    Obj::Dictionary(dict_insert(out, "ProcSet"@, direct(env.docs[src as int], ps))),
                ),
                None => (s1, Obj::Dictionary(out)),
            }
        },
    }
}

/// Copy the entries of a form's dictionary, but for its resources.
pub open spec fn form_entries(env: Env, st: State, src: nat, d: Entries, depth: nat) -> (
    State,
    Entries,
)
    decreases d.len(),
{
    if d.len() == 0 {
        (st, Seq::empty())
    } else {
        let (s1, out) = form_entries(env, st, src, d.drop_last(), depth);
        if d.last().0 == "Resources"@ {
            (s1, out)
        } else {
            let (s2, o) = remap(env, s1, src, d.last().1, depth);
            (s2, dict_insert(out, d.last().0, o))
        }
    }
}

/// Copy a form XObject with its resources trimmed to what its own content uses, and what the forms
/// use that take theirs from it, unless it was copied so before. Gives its new number.
pub open spec fn import_form_trimmed(env: Env, st: State, src: nat, id: nat, depth: nat) -> (
    State,
    nat,
)
    decreases levels(depth), 5nat, 0nat,
{
    if st.forms.contains_key((src, id)) {
        (st, st.forms[(src, id)])
    } else {
        let doc = env.docs[src as int];
        let n = next_id(st);
        let s1 = State { forms: st.forms.insert((src, id), n), ..with_slot(st) };
        match load_or_null(doc, id) {
            Obj::Stream(d, data) => {
                let (s2, nd) = form_entries(env, s1, src, d, depth + 1);
                match dict_get(d, "Resources"@) {
                    Some(r) => match resolve(doc, r) {
                        Some(res) => {
                            let used = all_use(doc, res, doc.content_of(id));
                            let (s3, t) = trimmed_resources(env, s2, src, res, used, depth + 1);
                            (put(s3, n, Obj::Stream(dict_insert(nd, "Resources"@, t), data)), n)
                        },
                        None => (put(s2, n, Obj::Stream(nd, data)), n),
                    },
                    None => (put(s2, n, Obj::Stream(nd, data)), n),
                }
            },
            o => {
                let (s2, r) = remap(env, s1, src, o, depth + 1);
                (put(s2, n, r), n)
            },
        }
    }
}

/// Is the name `n` of the category kept in the resources `out`?
pub open spec fn name_kept(out: Entries, category: Category, n: Seq<char>) -> bool {
    match dict_get(out, category.spec_key()) {
        Some(Obj::Dictionary(kept)) => dict_has(kept, n),
        _ => false,
    }
}

/// Is the name `n` of the category among the resources `res` and in use?
pub open spec fn name_needed(
    doc: PdfDocument,
    res: Entries,
    used: Used,
    category: Category,
    n: Seq<char>,
) -> bool {
    used.contains((category, n)) && match sub_dict(doc, res, category.spec_key()) {
        Some(sub) => dict_has(sub, n),
        None => false,
    }
}

proof fn has_last(d: Entries, n: Seq<char>)
    requires
        d.len() > 0,
    ensures
        dict_has(d, n) <==> dict_has(d.drop_last(), n) || d.last().0 == n,
    decreases d.len(),
{
    reveal_with_fuel(dict_get, 2);
    if d.len() > 1 {
        assert(d.skip(1).drop_last() =~= d.drop_last().skip(1));
        has_last(d.skip(1), n);
    }
}

/// Of a category those names are kept that are in use and there.
pub proof fn trim_entries_exact(
    env: Env,
    st: State,
    src: nat,
    sub: Entries,
    used: Used,
    category: Category,
    depth: nat,
    n: Seq<char>,
)
    ensures
        dict_has(trim_entries(env, st, src, sub, used, category, depth).1, n) <==> used.contains((category, n))
            && dict_has(sub, n),
    decreases sub.len(),
{
    if sub.len() > 0 {
        trim_entries_exact(env, st, src, sub.drop_last(), used, category, depth, n);
        has_last(sub, n);
        let (s1, out) = trim_entries(env, st, src, sub.drop_last(), used, category, depth);
        if used.contains((category, sub.last().0)) {
            let (s2, o) = import_resource(env, s1, src, sub.last().1, category, depth);
            dict_get_insert(out, sub.last().0, o, n);
        }
    }
}

/// Two categories have two keys, and none that of the procedure set.
pub proof fn keys_differ(a: Category, b: Category)
    ensures
        a != b ==> a.spec_key() != b.spec_key(),
        a.spec_key() != "ProcSet"@,
{
    reveal_strlit("Font");
    reveal_strlit("XObject");
    reveal_strlit("ExtGState");
    reveal_strlit("ColorSpace");
    reveal_strlit("Pattern");
    reveal_strlit("Shading");
    reveal_strlit("Properties");
    reveal_strlit("ProcSet");
    assert("Font"@.len() == 4 && "ExtGState"@.len() == 9);
    assert("XObject"@.len() == 7 && "Pattern"@.len() == 7 && "Shading"@.len() == 7 && "ProcSet"@.len() == 7);
    assert("ColorSpace"@.len() == 10 && "Properties"@.len() == 10);
    assert("XObject"@[0] != "Pattern"@[0]);
    assert("XObject"@[0] != "Shading"@[0]);
    assert("Pattern"@[0] != "Shading"@[0]);
    assert("ColorSpace"@[0] != "Properties"@[0]);
    assert("XObject"@[0] != "ProcSet"@[0]);
    assert("Shading"@[0] != "ProcSet"@[0]);
    assert("Pattern"@[1] != "ProcSet"@[1]);
}

/// Is `category` one of the first `n`?
pub open spec fn among(category: Category, n: nat) -> bool {
    exists|i: int| 0 <= i < n && #[trigger] categories()[i] == category
}

proof fn trim_categories_exact(
    env: Env,
    st: State,
    src: nat,
    res: Entries,
    used: Used,
    depth: nat,
    n: nat,
    category: Category,
    name: Seq<char>,
)
    requires
        n <= categories().len(),
    ensures
        name_kept(trim_categories(env, st, src, res, used, depth, n).1, category, name) <==> among(category, n)
            && name_needed(env.docs[src as int], res, used, category, name),
        dict_get(trim_categories(env, st, src, res, used, depth, n).1, "ProcSet"@) is None,
    decreases n,
{
    if n > 0 {
        trim_categories_exact(env, st, src, res, used, depth, (n - 1) as nat, category, name);
        let (s1, out) = trim_categories(env, st, src, res, used, depth, (n - 1) as nat);
        let last = categories()[n - 1];
        keys_differ(last, category);
        assert(among(category, n) <==> among(category, (n - 1) as nat) || last == category) by {
            if last == category {
                assert(categories()[n - 1] == category);
            }
        }
        assert(last == category ==> !among(category, (n - 1) as nat));
        if let Some(sub) = sub_dict(env.docs[src as int], res, last.spec_key()) {
            let (s2, kept) = trim_entries(env, s1, src, sub, used, last, depth);
            trim_entries_exact(env, s1, src, sub, used, last, depth, name);
            dict_get_insert(out, last.spec_key(), Obj::Dictionary(kept), category.spec_key());
            dict_get_insert(out, last.spec_key(), Obj::Dictionary(kept), "ProcSet"@);
            if kept.len() == 0 {
                assert(!dict_has(kept, name));
                no_key_before(env, st, src, res, used, depth, (n - 1) as nat, last);
            }
        } else {
            no_key_before(env, st, src, res, used, depth, (n - 1) as nat, last);
        }
    } else {
        assert(!among(category, 0));
    }
}

/// A category that was not trimmed yet has no entry.
pub proof fn no_key_before(
    env: Env,
    st: State,
    src: nat,
    res: Entries,
    used: Used,
    depth: nat,
    n: nat,
    category: Category,
)
    requires
        n <= categories().len(),
        !among(category, n),
    ensures
        dict_get(trim_categories(env, st, src, res, used, depth, n).1, category.spec_key()) is None,
    decreases n,
{
    if n > 0 {
        assert(!among(category, (n - 1) as nat));
        no_key_before(env, st, src, res, used, depth, (n - 1) as nat, category);
        let (s1, out) = trim_categories(env, st, src, res, used, depth, (n - 1) as nat);
        let last = categories()[n - 1];
        keys_differ(last, category);
        if let Some(sub) = sub_dict(env.docs[src as int], res, last.spec_key()) {
            let (s2, kept) = trim_entries(env, s1, src, sub, used, last, depth);
            dict_get_insert(out, last.spec_key(), Obj::Dictionary(kept), category.spec_key());
        }
    }
}

/// Trimmed resources hold of each category exactly the names that are there and in use.
pub proof fn trimmed_to_names_in_use(
    env: Env,
    st: State,
    src: nat,
    res: Obj,
    used: Used,
    depth: nat,
    category: Category,
    name: Seq<char>,
)
    requires
        obj_dict(res) is Some,
    ensures
        ({
            let o = trimmed_resources(env, st, src, res, used, depth).1;
            &&& o is Dictionary
            &&& name_kept(o->Dictionary_0, category, name) <==> name_needed(
                env.docs[src as int],
                obj_dict(res)->0,
                used,
                category,
                name,
            )
        }),
{
    let d = obj_dict(res)->0;
    let all = categories().len();
    trim_categories_exact(env, st, src, d, used, depth, all, category, name);
    let (s1, out) = trim_categories(env, st, src, d, used, depth, all);
    assert(among(category, all)) by {
        let c = categories();
        assert(c[0] == Category::Font && c[1] == Category::XObject && c[2] == Category::ExtGState && c[3]
            == Category::ColorSpace && c[4] == Category::Pattern && c[5] == Category::Shading && c[6]
            == Category::Properties);
    }
    if let Some(ps) = dict_get(d, "ProcSet"@) {
        keys_differ(category, category);
        dict_get_insert(out, "ProcSet"@, direct(env.docs[src as int], ps), category.spec_key());
    }
}

/// What is copied from below the greatest depth does not depend on how deep it lies.
proof fn form_entries_below(env: Env, st: State, src: nat, d: Entries, a: nat, b: nat)
    requires
        a > MAX_DEPTH,
        b > MAX_DEPTH,
    ensures
        form_entries(env, st, src, d, a) == form_entries(env, st, src, d, b),
    decreases d.len(),
{
    if d.len() > 0 {
        form_entries_below(env, st, src, d.drop_last(), a, b);
    }
}

proof fn trim_entries_below(
    env: Env,
    st: State,
    src: nat,
    sub: Entries,
    used: Used,
    category: Category,
    a: nat,
    b: nat,
)
    requires
        a > MAX_DEPTH,
        b > MAX_DEPTH,
    ensures
        trim_entries(env, st, src, sub, used, category, a) == trim_entries(env, st, src, sub, used, category, b),
    decreases sub.len(),
{
    if sub.len() > 0 {
        trim_entries_below(env, st, src, sub.drop_last(), used, category, a, b);
        let s1 = trim_entries(env, st, src, sub.drop_last(), used, category, a).0;
        let v = sub.last().1;
        assert(import_resource(env, s1, src, v, category, a) == remap(env, s1, src, v, a + 1));
        assert(import_resource(env, s1, src, v, category, b) == remap(env, s1, src, v, b + 1));
    }
}

proof fn trim_categories_below(env: Env, st: State, src: nat, res: Entries, used: Used, a: nat, b: nat, n: nat)
    requires
        a > MAX_DEPTH,
        b > MAX_DEPTH,
    ensures
        trim_categories(env, st, src, res, used, a, n) == trim_categories(env, st, src, res, used, b, n),
    decreases n,
{
    if n > 0 {
        trim_categories_below(env, st, src, res, used, a, b, (n - 1) as nat);
        let s1 = trim_categories(env, st, src, res, used, a, (n - 1) as nat).0;
        let category = categories()[n - 1];
        if let Some(sub) = sub_dict(env.docs[src as int], res, category.spec_key()) {
            trim_entries_below(env, s1, src, sub, used, category, a, b);
        }
    }
}

proof fn resources_below(env: Env, st: State, src: nat, res: Obj, used: Used, a: nat, b: nat)
    requires
        a > MAX_DEPTH,
        b > MAX_DEPTH,
    ensures
        trimmed_resources(env, st, src, res, used, a) == trimmed_resources(env, st, src, res, used, b),
{
    if let Some(d) = obj_dict(res) {
        trim_categories_below(env, st, src, d, used, a, b, categories().len());
    }
}

proof fn form_entries_keys(env: Env, st: State, src: nat, d: Entries, depth: nat, key: Seq<char>)
    ensures
        dict_has(form_entries(env, st, src, d, depth).1, key) <==> key != "Resources"@ && dict_has(d, key),
    decreases d.len(),
{
    if d.len() > 0 {
        form_entries_keys(env, st, src, d.drop_last(), depth, key);
        has_last(d, key);
        let (s1, out) = form_entries(env, st, src, d.drop_last(), depth);
        if d.last().0 != "Resources"@ {
            let o = remap(env, s1, src, d.last().1, depth).1;
            dict_get_insert(out, d.last().0, o, key);
        }
    }
}

/// A form that is copied with trimmed resources is the same form: it has the data of its source and
/// an entry for each of its entries, but for resources that cannot be found.
pub proof fn trimmed_form_is_the_form(env: Env, st: State, src: nat, id: nat, depth: nat, key: Seq<char>)
    requires
        !st.forms.contains_key((src, id)),
        load_or_null(env.docs[src as int], id) is Stream,
    ensures
        ({
            let doc = env.docs[src as int];
            let form = load_or_null(doc, id);
            let (s, n) = import_form_trimmed(env, st, src, id, depth);
            &&& n == next_id(st)
            &&& object_at(s, n) matches Some(Obj::Stream(d, data)) && data == form->Stream_1 && (dict_has(d, key)
                <==> if key == "Resources"@ {
                resources_of(doc, form->Stream_0) is Some
            } else {
                dict_has(form->Stream_0, key)
            })
        }),
{
    let doc = env.docs[src as int];
    let n = next_id(st);
    let s1 = State { forms: st.forms.insert((src, id), n), ..with_slot(st) };
    let form = load_or_null(doc, id);
    let d = form->Stream_0;
    form_entries_remember(env, s1, src, d, depth + 1);
    form_entries_keys(env, s1, src, d, depth + 1, key);
    let (s2, nd) = form_entries(env, s1, src, d, depth + 1);
    if let Some(res) = resources_of(doc, d) {
        let used = all_use(doc, res, doc.content_of(id));
        resources_remember(env, s2, src, res, used, depth + 1);
        let t = trimmed_resources(env, s2, src, res, used, depth + 1).1;
        dict_get_insert(nd, "Resources"@, t, key);
    }
}

/// Without a name in use, nothing of a category is copied.
proof fn trim_entries_unused(
    env: Env,
    st: State,
    src: nat,
    sub: Entries,
    used: Used,
    category: Category,
    depth: nat,
)
    requires
        forall|n: Seq<char>| !used.contains((category, n)),
    ensures
        trim_entries(env, st, src, sub, used, category, depth) == (st, Seq::<(Seq<char>, Obj)>::empty()),
    decreases sub.len(),
{
    if sub.len() > 0 {
        trim_entries_unused(env, st, src, sub.drop_last(), used, category, depth);
    }
}

impl<'a> Builder<'a> {
    /// The names of one category among the resources used; none where all are.
    pub fn keep_set<'b>(used: &'b UsedNames, category: Category) -> (r: Option<&'b NameSet>)
        ensures
            match r {
                Some(names) => !used.all && names@ == used.names(category),
                None => used.all,
            },
    {
        if used.all {
            return None;
        }
        Some(match category {
            Category::Font => &used.fonts,
            Category::XObject => &used.xobjects,
            Category::ExtGState => &used.extgstates,
            Category::ColorSpace => &used.colorspaces,
            Category::Pattern => &used.patterns,
            Category::Shading => &used.shadings,
            Category::Properties => &used.properties,
        })
    }

    /// The form XObject that `value` refers to, where it refers to one.
    pub fn form_ref_if_form(&self, src: usize, value: &Object) -> (r: Option<ObjectRef>)
        requires
            src < self.env().docs.len(),
        ensures
            match r {
                Some(r) => form_ref(self.env().docs[src as int], value@) == Some(r.id as nat),
                None => form_ref(self.env().docs[src as int], value@) is None,
            },
    {
        let doc: &'a PdfDocument = self.sources[src];
        match value.as_reference() {
            Some(r) => match doc.load_object(r) {
                Some(o) => match o.as_dict() {
                    Some(d) => if d.is_name("Subtype", "Form") {
                        Some(r)
                    } else {
                        None
                    },
                    None => None,
                },
                None => None,
            },
            None => None,
        }
    }

    /// The dictionary under `key`, directly or through a reference.
    pub fn sub_dict<'b>(&self, src: usize, d: &'b Dict, key: &str) -> (r: Option<&'b Dict>)
        where 'a: 'b
        requires
            src < self.env().docs.len(),
        ensures
            match r {
                Some(s) => sub_dict(self.env().docs[src as int], d@, key@) == Some(s@),
                None => sub_dict(self.env().docs[src as int], d@, key@) is None,
            },
    {
        match d.get(key) {
            Some(o) => match self.resolve(src, o) {
                Some(o) => o.as_dict(),
                None => None,
            },
            None => None,
        }
    }

    fn import_resource(&mut self, src: usize, value: &Object, category: Category, depth: usize) -> (r:
        Object)
        requires
            src < old(self).env().docs.len(),
        ensures
            final(self).env() == old(self).env(),
            (final(self)@, r@) == import_resource(
                old(self).env(),
                old(self)@,
                src as nat,
                value@,
                category,
                depth as nat,
            ),
        decreases levels(depth as nat), 1nat,
    {
        if category == Category::XObject && self.opts.trim_forms && depth < MAX_DEPTH {
            if let Some(fr) = self.form_ref_if_form(src, value) {
                let fid = self.import_form_trimmed(src, fr, depth + 1);
                return Object::reference(fid);
            }
        }
        self.remap(src, value, deeper(depth))
    }

    /// A resource dictionary with only what is used, everything in it copied.
    pub fn build_trimmed_resources(
        &mut self,
        src: usize,
        res: &Object,
        used: &UsedNames,
        depth: usize,
    ) -> (r: Object)
        requires
            src < old(self).env().docs.len(),
        ensures
            final(self).env() == old(self).env(),
            (final(self)@, r@) == trimmed_resources(
                old(self).env(),
                old(self)@,
                src as nat,
                res@,
                used@,
                depth as nat,
            ),
        decreases levels(depth as nat), 4nat,
    {
        let mut out = Dict::new();
        let res_dict = match res.as_dict() {
            Some(d) => d,
            None => return Object::Dictionary(out),
        };
        let order: [Category; 7] = [
            Category::Font,
            Category::XObject,
            Category::ExtGState,
            Category::ColorSpace,
            Category::Pattern,
            Category::Shading,
            Category::Properties,
        ];
        assert(order@ =~= categories());
        let mut c: usize = 0;
        while c < 7
            invariant
                c <= 7,
                order@ == categories(),
                src < self.env().docs.len(),
                self.env() == old(self).env(),
                (self@, out@) == trim_categories(
                    old(self).env(),
                    old(self)@,
                    src as nat,
                    res_dict@,
                    used@,
                    depth as nat,
                    c as nat,
                ),
            decreases 7 - c,
        {
            let category = order[c];
            let keep = Self::keep_set(used, category);
            let ghost before = self@;
            match self.sub_dict(src, res_dict, category.key()) {
                Some(sub) => {
                    let unused = match keep {
                        Some(names) => names.is_empty(),
                        None => false,
                    };
                    if unused {
                        proof {
                            assert forall|n: Seq<char>| !used@.contains((category, n)) by {
                                assert(used.names(category) == Set::<Seq<char>>::empty());
                            }
                            trim_entries_unused(
                                self.env(),
                                self@,
                                src as nat,
                                sub@,
                                used@,
                                category,
                                depth as nat,
                            );
                        }
                    } else {
                        let n = sub.len();
                        let mut kept = Dict::new();
                        let mut i: usize = 0;
                        assert(sub@.take(0) =~= Seq::empty());
                        while i < n
                            invariant
                                i <= n == sub@.len(),
                                match keep {
                                    Some(names) => !used.all && names@ == used.names(category),
                                    None => used.all,
                                },
                                src < self.env().docs.len(),
                                self.env() == old(self).env(),
                                (self@, kept@) == trim_entries(
                                    old(self).env(),
                                    before,
                                    src as nat,
                                    sub@.take(i as int),
                                    used@,
                                    category,
                                    depth as nat,
                                ),
                            decreases n - i,
                        {
                            proof {
                                let t = sub@.take(i + 1);
                                assert(t.drop_last() =~= sub@.take(i as int));
                                assert(t.last() == sub@[i as int]);
                            }
                            let name = sub.key_at(i);
                            let wanted = match keep {
                                Some(names) => names.contains(name),
                                None => true,
                            };
                            if wanted {
                                let imported = self.import_resource(src, sub.value_at(i), category, depth);
                                kept.insert(name.as_str(), imported);
                            }
                            i += 1;
                        }
                        assert(sub@.take(i as int) =~= sub@);
                        if !kept.is_empty() {
                            out.insert(category.key(), Object::Dictionary(kept));
                        }
                    }
                },
                None => {},
            }
            c += 1;
        }
        if let Some(ps) = res_dict.get("ProcSet") {
            let doc: &PdfDocument = self.sources[src];
            out.insert("ProcSet", direct_copy(doc, ps));
        }
        Object::Dictionary(out)
    }

    /// Copy a form XObject with its resources trimmed, unless it was copied so before.
    pub fn import_form_trimmed(&mut self, src: usize, form: ObjectRef, depth: usize) -> (id: usize)
        requires
            src < old(self).env().docs.len(),
        ensures
            final(self).env() == old(self).env(),
            (final(self)@, id as nat) == import_form_trimmed(
                old(self).env(),
                old(self)@,
                src as nat,
                form.id as nat,
                depth as nat,
            ),
        decreases levels(depth as nat), 5nat,
    {
        if let Some(n) = self.form_trim_map.get(src, form.id) {
            return n;
        }
        let doc: &'a PdfDocument = self.sources[src];
        let new_id = self.allocate();
        self.form_trim_map.insert(src, form.id, new_id);
        let null = Object::Null;
        let form_obj: &Object = match doc.load_object(form) {
            Some(o) => o,
            None => &null,
        };
        let below = deeper(depth);
        match form_obj {
            Object::Stream { dict, data } => {
                let ghost s1 = self@;
                let n = dict.len();
                let mut nd = Dict::new();
                let mut i: usize = 0;
                assert(dict@.take(0) =~= Seq::empty());
                while i < n
                    invariant
                        i <= n == dict@.len(),
                        src < self.env().docs.len(),
                        self.env() == old(self).env(),
                        (self@, nd@) == form_entries(
                            old(self).env(),
                            s1,
                            src as nat,
                            dict@.take(i as int),
                            below as nat,
                        ),
                    decreases n - i,
                {
                    proof {
                        let t = dict@.take(i + 1);
                        assert(t.drop_last() =~= dict@.take(i as int));
                        assert(t.last() == dict@[i as int]);
                    }
                    let key = dict.key_at(i);
                    if !str_eq(key.as_str(), "Resources") {
                        let o = self.remap(src, dict.value_at(i), below);
                        nd.insert(key.as_str(), o);
                    }
                    i += 1;
                }
                assert(dict@.take(i as int) =~= dict@);
                proof {
                    if depth > MAX_DEPTH {
                        form_entries_below(
                            self.env(),
                            s1,
                            src as nat,
                            dict@,
                            (depth + 1) as nat,
                            below as nat,
                        );
                    }
                }
                match dict.get("Resources") {
                    Some(r) => match self.resolve(src, r) {
                        Some(res) => {
                            let mut used = UsedNames::new();
                            let unread = Content::Undecodable;
                            let content = match doc.load_content(form) {
                                Some(c) => c,
                                None => &unread,
                            };
                            scan_all_used(doc, res, content, &mut used);
                            assert(used@ =~= all_use(*doc, res@, doc.content_of(form.id as nat)));
                            proof {
                                if depth > MAX_DEPTH {
                                    resources_below(
                                        self.env(),
                                        self@,
                                        src as nat,
                                        res@,
                                        used@,
                                        (depth + 1) as nat,
                                        below as nat,
                                    );
                                }
                            }
                            let trimmed = self.build_trimmed_resources(src, res, &used, below);
                            nd.insert("Resources", trimmed);
                        },
                        None => {},
                    },
                    None => {},
                }
                let bytes = data.clone();
                assert(bytes@ =~= data@);
                self.put(new_id, Object::Stream { dict: nd, data: bytes });
            },
            _ => {
                let remapped = self.remap(src, form_obj, below);
                self.put(new_id, remapped);
            },
        }
        new_id
    }
}

} // verus!
