//! Where destinations lead: what name trees hold, and what becomes of a target in the output.

use vstd::prelude::*;
use crate::document::PdfDocument;
use crate::object::{
    dict_get, dict_get_insert, dict_get_remove, dict_has, dict_remove, new_ref, Entries, Obj,
};
use super::dests::{
    catalog, dest_array, find_pair, name_tree, name_tree_kids, named_dest_string, remap_action, remap_dest,
    sub_array,
};
use super::direct::{direct, direct_entries};
use super::named::entries_under;
use super::unsigned::same_place;
use super::Env;

verus! {

/// Is `target` what stands under the key, or what is referred to there?
pub open spec fn under(doc: PdfDocument, d: Entries, key: Seq<char>, target: Obj) -> bool {
    !(target is Reference) && match dict_get(d, key) {
        Some(Obj::Reference(id, _)) => doc.lookup(id) == Some(target),
        Some(o) => o == target,
        None => false,
    }
}

proof fn pair_found(names: Seq<Obj>, key: Seq<u8>, j: int)
    requires
        0 <= j,
        2 * j + 1 < names.len(),
        names[2 * j] == Obj::String(key),
        forall|i: int| 0 <= i < j ==> #[trigger] names[2 * i] != Obj::String(key),
    ensures
        find_pair(names, key) == Some(names[2 * j + 1]),
    decreases j,
{
    if j > 0 {
        assert(names[2 * 0int] != Obj::String(key));
        let rest = names.skip(2);
        assert(rest[2 * (j - 1)] == names[2 * j]);
        assert forall|i: int| 0 <= i < j - 1 implies #[trigger] rest[2 * i] != Obj::String(key) by {
            assert(names[2 * (i + 1)] != Obj::String(key));
            assert(rest[2 * i] == names[2 * (i + 1)]);
        }
        pair_found(rest, key, j - 1);
        assert(rest[2 * (j - 1) + 1] == names[2 * j + 1]);
    }
}

proof fn pair_missed(names: Seq<Obj>, key: Seq<u8>)
    requires
        forall|i: int| 0 <= i && 2 * i + 1 < names.len() ==> #[trigger] names[2 * i] != Obj::String(key),
    ensures
        find_pair(names, key) is None,
    decreases names.len(),
{
    if names.len() >= 2 {
        assert(names[2 * 0int] != Obj::String(key));
        let rest = names.skip(2);
        assert forall|i: int| 0 <= i && 2 * i + 1 < rest.len() implies #[trigger] rest[2 * i] != Obj::String(key) by {
            assert(names[2 * (i + 1)] != Obj::String(key));
            assert(rest[2 * i] == names[2 * (i + 1)]);
        }
        pair_missed(rest, key);
    }
}

/// The lookup in a name tree finds the first pair with the key among the names of a node: where the
/// key stands at an even position with a value after it, and at no even position before, the value is
/// what follows.
pub proof fn name_tree_finds(doc: PdfDocument, node: Entries, names: Seq<Obj>, key: Seq<u8>, depth: nat, j: int)
    requires
        depth <= 32,
        under(doc, node, "Names"@, Obj::Array(names)),
        0 <= j,
        2 * j + 1 < names.len(),
        names[2 * j] == Obj::String(key),
        forall|i: int| 0 <= i < j ==> #[trigger] names[2 * i] != Obj::String(key),
    ensures
        name_tree(doc, Obj::Dictionary(node), key, depth) == Some(names[2 * j + 1]),
{
    assert(sub_array(doc, node, "Names"@) == Some(names));
    pair_found(names, key, j);
}

/// A leaf of a name tree gives nothing exactly where no pair has the key, and else the value of a pair
/// that has it.
pub proof fn name_tree_leaf_is_exact(doc: PdfDocument, node: Entries, names: Seq<Obj>, key: Seq<u8>, depth: nat)
    requires
        depth <= 32,
        under(doc, node, "Names"@, Obj::Array(names)),
        !dict_has(node, "Kids"@),
    ensures
        ({
            let found = name_tree(doc, Obj::Dictionary(node), key, depth);
            &&& found is None <==> forall|i: int|
                0 <= i && 2 * i + 1 < names.len() ==> #[trigger] names[2 * i] != Obj::String(key)
            &&& found matches Some(v) ==> exists|i: int|
                0 <= i && 2 * i + 1 < names.len() && #[trigger] names[2 * i] == Obj::String(key) && v == names[2 * i
                    + 1]
        }),
{
    assert(sub_array(doc, node, "Names"@) == Some(names));
    if forall|i: int| 0 <= i && 2 * i + 1 < names.len() ==> #[trigger] names[2 * i] != Obj::String(key) {
        pair_missed(names, key);
    } else {
        let i = choose|i: int|
            0 <= i && 2 * i + 1 < names.len() && !(#[trigger] names[2 * i] != Obj::String(key));
        first_pair(names, key, i);
    }
}

proof fn first_pair(names: Seq<Obj>, key: Seq<u8>, i: int)
    requires
        0 <= i,
        2 * i + 1 < names.len(),
        names[2 * i] == Obj::String(key),
    ensures
        exists|j: int|
            0 <= j <= i && #[trigger] names[2 * j] == Obj::String(key) && find_pair(names, key) == Some(
                names[2 * j + 1],
            ),
    decreases i,
{
    if exists|j: int| 0 <= j < i && #[trigger] names[2 * j] == Obj::String(key) {
        let j = choose|j: int| 0 <= j < i && #[trigger] names[2 * j] == Obj::String(key);
        first_pair(names, key, j);
    } else {
        pair_found(names, key, i);
    }
}

/// The kid of a node of a name tree, where it is a dictionary.
pub open spec fn kid_at(doc: PdfDocument, kids: Seq<Obj>, i: int) -> Obj {
    match kids[i] {
        Obj::Reference(id, _) => match doc.lookup(id) {
            Some(o) => o,
            None => Obj::Null,
        },
        o => o,
    }
}

proof fn kids_found(doc: PdfDocument, kids: Seq<Obj>, key: Seq<u8>, depth: nat, j: int)
    requires
        0 <= j < kids.len(),
        name_tree(doc, kid_at(doc, kids, j), key, depth) is Some,
        forall|i: int| 0 <= i < j ==> #[trigger] name_tree(doc, kid_at(doc, kids, i), key, depth) is None,
    ensures
        name_tree_kids(doc, kids, key, depth) == name_tree(doc, kid_at(doc, kids, j), key, depth),
    decreases kids.len(),
{
    null_holds_none(doc, key, depth);
    if j > 0 {
        assert(name_tree(doc, kid_at(doc, kids, 0), key, depth) is None);
        let rest = kids.skip(1);
        assert forall|i: int| 0 <= i < j - 1 implies #[trigger] name_tree(doc, kid_at(doc, rest, i), key, depth) is None by {
            assert(kid_at(doc, rest, i) == kid_at(doc, kids, i + 1));
        }
        assert(kid_at(doc, rest, j - 1) == kid_at(doc, kids, j));
        kids_found(doc, rest, key, depth, j - 1);
    }
}

proof fn kids_missed(doc: PdfDocument, kids: Seq<Obj>, key: Seq<u8>, depth: nat)
    requires
        forall|i: int|
            0 <= i < kids.len() ==> #[trigger] name_tree(doc, kid_at(doc, kids, i), key, depth) is None,
    ensures
        name_tree_kids(doc, kids, key, depth) is None,
    decreases kids.len(),
{
    null_holds_none(doc, key, depth);
    if kids.len() > 0 {
        assert(name_tree(doc, kid_at(doc, kids, 0), key, depth) is None);
        let rest = kids.skip(1);
        assert forall|i: int|
            0 <= i < rest.len() implies #[trigger] name_tree(doc, kid_at(doc, rest, i), key, depth) is None by {
            assert(kid_at(doc, rest, i) == kid_at(doc, kids, i + 1));
        }
        kids_missed(doc, rest, key, depth);
    }
}

proof fn null_holds_none(doc: PdfDocument, key: Seq<u8>, depth: nat)
    ensures
        name_tree(doc, Obj::Null, key, depth) is None,
{
}

/// The lookup in a node of a name tree without names of its own is that in the first of its kids that
/// has the key, and gives nothing where none of them has it.
pub proof fn name_tree_descends(doc: PdfDocument, node: Entries, kids: Seq<Obj>, key: Seq<u8>, depth: nat)
    requires
        depth <= 32,
        under(doc, node, "Kids"@, Obj::Array(kids)),
        !dict_has(node, "Names"@),
    ensures
        ({
            let found = name_tree(doc, Obj::Dictionary(node), key, depth);
            &&& forall|j: int|
                0 <= j < kids.len() && #[trigger] name_tree(doc, kid_at(doc, kids, j), key, depth + 1) is Some && (
                forall|i: int|
                    0 <= i < j ==> #[trigger] name_tree(doc, kid_at(doc, kids, i), key, depth + 1) is None)
                    ==> found == name_tree(doc, kid_at(doc, kids, j), key, depth + 1)
            &&& (forall|i: int|
                0 <= i < kids.len() ==> #[trigger] name_tree(doc, kid_at(doc, kids, i), key, depth + 1) is None)
                ==> found is None
        }),
{
    assert(sub_array(doc, node, "Kids"@) == Some(kids));
    let found = name_tree(doc, Obj::Dictionary(node), key, depth);
    assert(found == name_tree_kids(doc, kids, key, depth + 1));
    assert forall|j: int|
        0 <= j < kids.len() && #[trigger] name_tree(doc, kid_at(doc, kids, j), key, depth + 1) is Some && (forall|
            i: int,
        |
            0 <= i < j ==> #[trigger] name_tree(doc, kid_at(doc, kids, i), key, depth + 1)
                is None) implies found == name_tree(doc, kid_at(doc, kids, j), key, depth + 1) by {
        kids_found(doc, kids, key, depth + 1, j);
    }
    if forall|i: int|
        0 <= i < kids.len() ==> #[trigger] name_tree(doc, kid_at(doc, kids, i), key, depth + 1) is None {
        kids_missed(doc, kids, key, depth + 1);
    }
}

/// Is `o` neither a reference nor anything that may hold one?
pub open spec fn simple(o: Obj) -> bool {
    o is Null || o is Boolean || o is Integer || o is Real || o is Name || o is String
}

/// Is `dest` the destination `a`: the array itself, a reference to it, or a dictionary that has the one
/// or the other under `D`?
pub open spec fn destination(doc: PdfDocument, dest: Obj, a: Seq<Obj>) -> bool {
    match dest {
        Obj::Array(b) => a == b,
        Obj::Reference(id, _) => match doc.lookup(id) {
            Some(Obj::Array(b)) => a == b,
            Some(Obj::Dictionary(d)) => under(doc, d, "D"@, Obj::Array(a)),
            _ => false,
        },
        Obj::Dictionary(d) => under(doc, d, "D"@, Obj::Array(a)),
        _ => false,
    }
}

/// Is `cat` the catalog of the document?
pub open spec fn is_catalog(doc: PdfDocument, cat: Entries) -> bool {
    match doc.root() {
        Obj::Dictionary(t) => match dict_get(t, "Root"@) {
            Some(Obj::Reference(id, _)) => doc.lookup(id) == Some(Obj::Dictionary(cat)),
            _ => false,
        },
        _ => false,
    }
}

/// Is `out` the destination `a` with its page replaced by the new one, and else as it was but for
/// references?
pub open spec fn turned_to(env: Env, src: nat, a: Seq<Obj>, out: Option<Obj>) -> bool {
    match a[0] {
        Obj::Reference(id, _) => if env.pages.contains_key((src, id)) {
            &&& out matches Some(o) && o is Array && o->Array_0.len() == a.len() && o->Array_0[0] == new_ref(
                env.pages[(src, id)],
            ) && forall|i: int| 0 < i < a.len() && simple(#[trigger] a[i]) ==> o->Array_0[i] == a[i]
        } else {
            out is None
        },
        _ => out is None,
    }
}

proof fn array_turned(env: Env, src: nat, dest: Obj, a: Seq<Obj>)
    requires
        a.len() > 0,
        dest_array(env.docs[src as int], dest, 0) == Some(a),
    ensures
        turned_to(env, src, a, remap_dest(env, src, dest)),
{
}

proof fn destination_read(doc: PdfDocument, dest: Obj, a: Seq<Obj>, steps: nat)
    requires
        destination(doc, dest, a),
        steps <= 4,
    ensures
        dest_array(doc, dest, steps) == Some(a),
{
    reveal_with_fuel(dest_array, 5);
}

/// A destination that is given in place leads to the new page where its page is kept, and nowhere
/// where it is not; what follows the page is left as it was.
pub proof fn destination_follows_its_page(env: Env, src: nat, dest: Obj, a: Seq<Obj>)
    requires
        destination(env.docs[src as int], dest, a),
        a.len() > 0,
    ensures
        turned_to(env, src, a, remap_dest(env, src, dest)),
{
    destination_read(env.docs[src as int], dest, a, 0);
    array_turned(env, src, dest, a);
}

/// A destination that is given by a name is the one that the dictionary of destinations in the catalog
/// has under that name.
pub proof fn named_destination_follows_its_page(
    env: Env,
    src: nat,
    name: Seq<char>,
    cat: Entries,
    dests: Entries,
    a: Seq<Obj>,
)
    requires
        is_catalog(env.docs[src as int], cat),
        entries_under(env.docs[src as int], cat, "Dests"@) == Some(dests),
        dict_get(dests, name) matches Some(v) && destination(env.docs[src as int], v, a),
        a.len() > 0,
    ensures
        turned_to(env, src, a, remap_dest(env, src, Obj::Name(name))),
{
    let doc = env.docs[src as int];
    assert(catalog(doc) == Some(cat));
    destination_read(doc, dict_get(dests, name)->0, a, 1);
    array_turned(env, src, Obj::Name(name), a);
}

/// A destination that is given by a string is the one that the name tree of destinations in the catalog
/// has under that string.
pub proof fn string_destination_follows_its_page(
    env: Env,
    src: nat,
    key: Seq<u8>,
    cat: Entries,
    names: Entries,
    tree: Entries,
    a: Seq<Obj>,
)
    requires
        is_catalog(env.docs[src as int], cat),
        entries_under(env.docs[src as int], cat, "Names"@) == Some(names),
        under(env.docs[src as int], names, "Dests"@, Obj::Dictionary(tree)),
        name_tree(env.docs[src as int], Obj::Dictionary(tree), key, 0) matches Some(v) && destination(
            env.docs[src as int],
            v,
            a,
        ),
        a.len() > 0,
    ensures
        turned_to(env, src, a, remap_dest(env, src, Obj::String(key))),
{
    let doc = env.docs[src as int];
    assert(catalog(doc) == Some(cat));
    let v = name_tree(doc, Obj::Dictionary(tree), key, 0)->0;
    assert(named_dest_string(doc, key) == Some(v));
    destination_read(doc, v, a, 1);
    array_turned(env, src, Obj::String(key), a);
}

/// What neither is a destination nor names one leads nowhere.
pub proof fn no_destination_leads_nowhere(env: Env, src: nat, dest: Obj)
    requires
        dest is Null || dest is Boolean || dest is Integer || dest is Real || dest is Stream || dest == Obj::Array(
            Seq::empty(),
        ),
    ensures
        remap_dest(env, src, dest) is None,
{
}

/// A jump within the document follows its destination, with all else as it was but for what comes
/// after it; it goes where its destination does.
pub proof fn jump_follows_its_destination(env: Env, src: nat, action: Entries, d: Obj, key: Seq<char>)
    requires
        dict_get(action, "S"@) == Some(Obj::Name("GoTo"@)),
        dict_get(action, "D"@) == Some(d),
    ensures
        ({
            let out = remap_action(env, src, Obj::Dictionary(action));
            let e = out->0->Dictionary_0;
            &&& out is Some <==> remap_dest(env, src, d) is Some
            &&& out is Some ==> out->0 is Dictionary && dict_get(e, "D"@) == remap_dest(env, src, d) && !dict_has(
                e,
                "Next"@,
            )
            &&& out is Some && key != "D"@ && key != "Next"@ ==> (dict_has(e, key) <==> dict_has(action, key)) && (
            dict_get(action, key) matches Some(v) ==> simple(v) ==> dict_get(e, key) == Some(v))
        }),
{
    let doc = env.docs[src as int];
    action_entries(doc, action, key);
    action_entries(doc, action, "Next"@);
    let own = direct_entries(doc, dict_remove(action, "Next"@));
    reveal_strlit("Next");
    reveal_strlit("D");
    assert("Next"@.len() == 4 && "D"@.len() == 1);
    if let Some(v) = remap_dest(env, src, d) {
        dict_get_insert(own, "D"@, v, "D"@);
        dict_get_insert(own, "D"@, v, key);
        dict_get_insert(own, "D"@, v, "Next"@);
    }
}

proof fn action_entries(doc: PdfDocument, action: Entries, key: Seq<char>)
    ensures
        ({
            let own = direct_entries(doc, dict_remove(action, "Next"@));
            if key == "Next"@ {
                !dict_has(own, key)
            } else {
                &&& dict_has(own, key) <==> dict_has(action, key)
                &&& dict_get(action, key) matches Some(v) ==> dict_get(own, key) == Some(direct(doc, v))
            }
        }),
{
    let rest = dict_remove(action, "Next"@);
    let own = direct_entries(doc, rest);
    dict_get_remove(action, "Next"@, key);
    assert forall|i: int| 0 <= i < own.len() implies (#[trigger] own[i]).0 == rest[i].0 by {}
    same_place(own, rest, key);
    if dict_has(own, key) {
        let i = choose|i: int|
            0 <= i < own.len() && dict_get(own, key) == Some((#[trigger] own[i]).1) && dict_get(rest, key) == Some(
                rest[i].1,
            );
        assert(own[i].1 == direct(doc, rest[i].1));
    }
}

/// An action that leaves the document, and one that is named, is kept as it is but for what comes after
/// it.
pub proof fn outward_action_is_kept(env: Env, src: nat, action: Entries, key: Seq<char>)
    requires
        dict_get(action, "S"@) == Some(Obj::Name("URI"@)) || dict_get(action, "S"@) == Some(Obj::Name("Named"@)),
    ensures
        ({
            let out = remap_action(env, src, Obj::Dictionary(action));
            let e = out->0->Dictionary_0;
            &&& out is Some
            &&& out->0 is Dictionary
            &&& !dict_has(e, "Next"@)
            &&& key != "Next"@ ==> (dict_has(e, key) <==> dict_has(action, key)) && (dict_get(action, key) matches Some(
                v,
            ) ==> simple(v) ==> dict_get(e, key) == Some(v))
        }),
{
    reveal_strlit("GoTo");
    reveal_strlit("URI");
    reveal_strlit("Named");
    assert("GoTo"@.len() == 4 && "URI"@.len() == 3 && "Named"@.len() == 5);
    action_entries(env.docs[src as int], action, key);
    action_entries(env.docs[src as int], action, "Next"@);
}

/// An action of any other kind is dropped.
pub proof fn other_action_is_dropped(env: Env, src: nat, action: Entries)
    requires
        dict_get(action, "S"@) != Some(Obj::Name("GoTo"@)),
        dict_get(action, "S"@) != Some(Obj::Name("URI"@)),
        dict_get(action, "S"@) != Some(Obj::Name("Named"@)),
    ensures
        remap_action(env, src, Obj::Dictionary(action)) is None,
{
}

/// An action that is referred to is taken for the one that is there.
pub proof fn action_through_reference(env: Env, src: nat, id: nat, gen: u16)
    ensures
        match env.docs[src as int].lookup(id) {
            Some(Obj::Dictionary(d)) => remap_action(env, src, Obj::Reference(id, gen)) == remap_action(
                env,
                src,
                Obj::Dictionary(d),
            ),
            Some(Obj::Stream(_, _)) => true,
            _ => remap_action(env, src, Obj::Reference(id, gen)) is None,
        },
{
}

} // verus!
