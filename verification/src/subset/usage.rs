//! The resources that content uses, with those that the forms use which it draws and which have no
//! resources of their own.

use std::collections::HashSet;
use vstd::prelude::*;
use crate::document::{resolve, stream_number, unseen, unseen_decreases, Content, Operator, PdfDocument};
use crate::object::{dict_get, dict_is_name, obj_dict, Entries, Obj, Object, ObjectRef};
use super::defaults::{content_need, scan_needed};
use super::resources::{sub_dict, Category, Used, UsedNames};

verus! {

/// The resources that a page or a form has.
pub open spec fn resources_of(doc: PdfDocument, d: Entries) -> Option<Obj> {
    match dict_get(d, "Resources"@) {
        Some(r) => resolve(doc, r),
        None => None,
    }
}

/// The number of the form without resources of its own that a name among the resources `res` stands
/// for. Such a form takes its resources from where it is drawn.
pub open spec fn bare_form(doc: PdfDocument, res: Obj, name: Seq<char>) -> Option<nat> {
    match obj_dict(res) {
        Some(d) => match sub_dict(doc, d, "XObject"@) {
            Some(x) => match dict_get(x, name) {
                Some(v) => match stream_number(doc, v) {
                    Some(id) => match doc.lookup(id) {
                        Some(o) => match obj_dict(o) {
                            Some(f) => if dict_is_name(f, "Subtype"@, "Form"@) && resources_of(doc, f) is None {
                                Some(id)
                            } else {
                                None
                            },
                            None => None,
                        },
                        None => None,
                    },
                    None => None,
                },
                None => None,
            },
            None => None,
        },
        None => None,
    }
}

/// Do the operators draw the form of number `id`, which takes its resources from `res`?
pub open spec fn draws(doc: PdfDocument, res: Obj, ops: Seq<Operator>, id: nat) -> bool {
    exists|i: int|
        0 <= i < ops.len() && (#[trigger] ops[i]) is Do && bare_form(doc, res, ops[i]->Do_name@) == Some(id)
}

/// Does each form of the sequence draw the next, and the operators the first?
pub open spec fn draws_along(doc: PdfDocument, res: Obj, ops: Seq<Operator>, path: Seq<nat>) -> bool {
    &&& path.len() > 0
    &&& draws(doc, res, ops, path[0])
    &&& forall|i: int|
        0 <= i < path.len() - 1 ==> #[trigger] draws_next(doc, res, path, i)
}

/// Does the form at position `i` draw the next?
pub open spec fn draws_next(doc: PdfDocument, res: Obj, path: Seq<nat>, i: int) -> bool {
    draws(doc, res, doc.content_of(path[i]).operators(), path[i + 1])
}

/// Is the form of number `id`, which takes its resources from `res`, drawn by the operators, or by a
/// form that is so drawn?
pub open spec fn drawn(doc: PdfDocument, res: Obj, ops: Seq<Operator>, id: nat) -> bool {
    exists|path: Seq<nat>| #[trigger] draws_along(doc, res, ops, path) && path.last() == id
}

/// The resources among `res` that a content needs, and the forms that take theirs from there.
pub open spec fn all_use(doc: PdfDocument, res: Obj, content: Content) -> Used {
    Set::new(
        |p: (Category, Seq<char>)|
            content_need(content).contains(p) || exists|id: nat| #[trigger]
                drawn(doc, res, content.operators(), id) && content_need(doc.content_of(id)).contains(p),
    )
}

/// Nothing that a used form draws is lost: what a form without resources of its own needs is among
/// what the content needs that draws it.
pub proof fn drawn_form_uses(doc: PdfDocument, res: Obj, content: Content, id: nat, p: (Category, Seq<char>))
    requires
        drawn(doc, res, content.operators(), id),
        content_need(doc.content_of(id)).contains(p),
    ensures
        all_use(doc, res, content).contains(p),
{
}

/// Where content cannot be read, that of a page or of a form which takes its resources from there,
/// nothing is trimmed away.
pub proof fn unread_content_uses_all(doc: PdfDocument, res: Obj, content: Content, id: nat, p: (Category, Seq<char>))
    requires
        !(content is Operators) || (drawn(doc, res, content.operators(), id) && !(doc.content_of(id) is Operators)),
    ensures
        all_use(doc, res, content).contains(p),
{
    if content is Operators {
        assert(content_need(doc.content_of(id)).contains(p));
    }
}

/// A form that a drawn form draws is drawn.
pub proof fn drawn_step(doc: PdfDocument, res: Obj, ops: Seq<Operator>, a: nat, b: nat)
    requires
        drawn(doc, res, ops, a),
        draws(doc, res, doc.content_of(a).operators(), b),
    ensures
        drawn(doc, res, ops, b),
{
    let p = choose|p: Seq<nat>| #[trigger] draws_along(doc, res, ops, p) && p.last() == a;
    let q = p.push(b);
    assert forall|i: int| 0 <= i < q.len() - 1 implies #[trigger] draws_next(doc, res, q, i) by {
        if i < p.len() - 1 {
            assert(draws_next(doc, res, p, i));
        }
    }
    assert(draws_along(doc, res, ops, q));
}

proof fn drawn_first(doc: PdfDocument, res: Obj, ops: Seq<Operator>, id: nat)
    requires
        draws(doc, res, ops, id),
    ensures
        drawn(doc, res, ops, id),
{
    assert(draws_along(doc, res, ops, seq![id]));
}

/// Are all forms that the operators draw among `seen`?
spec fn all_seen(doc: PdfDocument, res: Obj, ops: Seq<Operator>, seen: Set<usize>) -> bool {
    forall|id: nat| #[trigger] draws(doc, res, ops, id) ==> id <= usize::MAX && seen.contains(id as usize)
}

proof fn path_seen(doc: PdfDocument, res: Obj, ops: Seq<Operator>, seen: Set<usize>, path: Seq<nat>, k: int)
    requires
        draws_along(doc, res, ops, path),
        0 <= k < path.len(),
        all_seen(doc, res, ops, seen),
        forall|id: usize| #[trigger]
            seen.contains(id) ==> all_seen(doc, res, doc.content_of(id as nat).operators(), seen),
    ensures
        path[k] <= usize::MAX && seen.contains(path[k] as usize),
    decreases k,
{
    if k > 0 {
        path_seen(doc, res, ops, seen, path, k - 1);
        assert(draws_next(doc, res, path, k - 1));
    }
}

fn find_bare_form(doc: &PdfDocument, res: &Object, name: &String) -> (r: Option<usize>)
    ensures
        match r {
            Some(id) => bare_form(*doc, res@, name@) == Some(id as nat) && doc.lookup(id as nat) is Some,
            None => bare_form(*doc, res@, name@) is None,
        },
{
    let d = match res.as_dict() {
        Some(d) => d,
        None => return None,
    };
    let x = match d.get("XObject") {
        Some(o) => match doc.resolve_object(o) {
            Ok(o) => match o.as_dict() {
                Some(x) => x,
                None => return None,
            },
            Err(_) => return None,
        },
        None => return None,
    };
    let v = match x.get(name.as_str()) {
        Some(v) => v,
        None => return None,
    };
    let id = match doc.number_of_stream(v) {
        Some(id) => id,
        None => return None,
    };
    let f = match doc.load_object(ObjectRef { id, gen: 0 }) {
        Some(o) => match o.as_dict() {
            Some(f) => f,
            None => return None,
        },
        None => return None,
    };
    if !f.is_name("Subtype", "Form") {
        return None;
    }
    match f.get("Resources") {
        Some(o) => match doc.resolve_object(o) {
            Ok(_) => None,
            Err(_) => Some(id),
        },
        None => Some(id),
    }
}

/// Is the queue made of the forms that were seen?
spec fn queued(queue: Seq<usize>, seen: Set<usize>) -> bool {
    &&& forall|j: int| 0 <= j < queue.len() ==> seen.contains(#[trigger] queue[j])
    &&& forall|id: usize| #[trigger] seen.contains(id) ==> queue.contains(id)
}

/// Enter the forms that a content draws into the queue, where they were not seen before.
fn enqueue(doc: &PdfDocument, res: &Object, content: &Content, queue: &mut Vec<usize>, seen: &mut HashSet<usize>)
    requires
        queued(old(queue)@, old(seen)@),
    ensures
        queued(final(queue)@, final(seen)@),
        all_seen(*doc, res@, content.operators(), final(seen)@),
        old(seen)@.subset_of(final(seen)@),
        old(queue)@.len() <= final(queue)@.len(),
        forall|j: int| 0 <= j < old(queue)@.len() ==> final(queue)@[j] == #[trigger] old(queue)@[j],
        forall|id: usize| #[trigger]
            final(seen)@.contains(id) && !old(seen)@.contains(id) ==> draws(
                *doc,
                res@,
                content.operators(),
                id as nat,
            ),
        unseen(*doc, final(seen)@) <= unseen(*doc, old(seen)@),
        final(queue)@.len() > old(queue)@.len() ==> unseen(*doc, final(seen)@) < unseen(*doc, old(seen)@),
{
    if let Content::Operators(ops) = content {
        let mut i: usize = 0;
        while i < ops.len()
            invariant
                i <= ops@.len(),
                content.operators() == ops@,
                queued(queue@, seen@),
                forall|j: int|
                    0 <= j < i && (#[trigger] ops@[j]) is Do ==> (bare_form(
                        *doc,
                        res@,
                        ops@[j]->Do_name@,
                    ) matches Some(id) ==> id <= usize::MAX && seen@.contains(id as usize)),
                old(seen)@.subset_of(seen@),
                old(queue)@.len() <= queue@.len(),
                forall|j: int| 0 <= j < old(queue)@.len() ==> queue@[j] == #[trigger] old(queue)@[j],
                forall|id: usize| #[trigger]
                    seen@.contains(id) && !old(seen)@.contains(id) ==> draws(*doc, res@, ops@, id as nat),
                unseen(*doc, seen@) <= unseen(*doc, old(seen)@),
                queue@.len() > old(queue)@.len() ==> unseen(*doc, seen@) < unseen(*doc, old(seen)@),
            decreases ops@.len() - i,
        {
            if let Operator::Do { name } = &ops[i] {
                if let Some(id) = find_bare_form(doc, res, name) {
                    if !seen.contains(&id) {
                        proof {
                            unseen_decreases(*doc, seen@, id);
                        }
                        assert(ops@[i as int] is Do);
                        assert(draws(*doc, res@, ops@, id as nat));
                        let ghost before = queue@;
                        let ghost known = seen@;
                        seen.insert(id);
                        queue.push(id);
                        assert(queued(queue@, seen@)) by {
                            assert forall|k: usize| #[trigger] seen@.contains(k) implies queue@.contains(k) by {
                                if k == id {
                                    assert(queue@[before.len() as int] == id);
                                } else {
                                    assert(known.contains(k));
                                    let j = choose|j: int| 0 <= j < before.len() && before[j] == k;
                                    assert(queue@[j] == k);
                                }
                            }
                        }
                    }
                }
            }
            i += 1;
        }
    }
}

/// Record the resources among `res` that a content uses, and the forms that take theirs from there.
#[verifier::rlimit(40)]
pub fn scan_all_used(doc: &PdfDocument, res: &Object, content: &Content, used: &mut UsedNames)
    ensures
        final(used)@ == old(used)@.union(all_use(*doc, res@, *content)),
{
    let ghost start = used@;
    let ghost ops = content.operators();
    scan_needed(content, used);
    let mut queue: Vec<usize> = Vec::new();
    let mut seen: HashSet<usize> = HashSet::new();
    enqueue(doc, res, content, &mut queue, &mut seen);
    let mut at: usize = 0;
    proof {
        assert forall|id: usize| #[trigger] seen@.contains(id) implies drawn(*doc, res@, ops, id as nat) by {
            drawn_first(*doc, res@, ops, id as nat);
        }
        assert(used@ =~= start.union(use_of_first(*doc, *content, queue@, 0)));
    }
    while at < queue.len()
        invariant
            at <= queue@.len(),
            ops == content.operators(),
            queued(queue@, seen@),
            all_seen(*doc, res@, ops, seen@),
            forall|j: int|
                0 <= j < at ==> all_seen(
                    *doc,
                    res@,
                    doc.content_of((#[trigger] queue@[j]) as nat).operators(),
                    seen@,
                ),
            forall|id: usize| #[trigger] seen@.contains(id) ==> drawn(*doc, res@, ops, id as nat),
            used@ == start.union(use_of_first(*doc, *content, queue@, at as nat)),
        decreases unseen(*doc, seen@), queue@.len() - at,
    {
        let id = queue[at];
        let ghost before = queue@;
        let ghost known = seen@;
        let ghost had = used@;
        let unread = Content::Undecodable;
        let inner = match doc.load_content(ObjectRef { id, gen: 0 }) {
            Some(c) => c,
            None => &unread,
        };
        scan_needed(inner, used);
        enqueue(doc, res, inner, &mut queue, &mut seen);
        at += 1;
        proof {
            assert(known.contains(id));
            assert forall|k: usize| #[trigger] seen@.contains(k) implies drawn(*doc, res@, ops, k as nat) by {
                if !known.contains(k) {
                    drawn_step(*doc, res@, ops, id as nat, k as nat);
                }
            }
            assert forall|m: nat| #[trigger] draws(*doc, res@, ops, m) implies m <= usize::MAX && seen@.contains(
                m as usize,
            ) by {
                assert(known.contains(m as usize));
            }
            assert forall|j: int| 0 <= j < at implies all_seen(
                *doc,
                res@,
                doc.content_of((#[trigger] queue@[j]) as nat).operators(),
                seen@,
            ) by {
                assert(queue@[j] == before[j]);
                if j < at - 1 {
                    assert(all_seen(*doc, res@, doc.content_of(before[j] as nat).operators(), known));
                }
            }
            assert(used@ =~= had.union(content_need(doc.content_of(id as nat))));
            use_of_next(*doc, *content, before, queue@, (at - 1) as nat);
            assert(used@ =~= start.union(use_of_first(*doc, *content, queue@, at as nat)));
        }
    }
    proof {
        assert forall|id: usize| #[trigger] seen@.contains(id) implies all_seen(
            *doc,
            res@,
            doc.content_of(id as nat).operators(),
            seen@,
        ) by {
            let j = choose|j: int| 0 <= j < queue@.len() && queue@[j] == id;
            assert(all_seen(*doc, res@, doc.content_of(queue@[j] as nat).operators(), seen@));
        }
        found_is_all(*doc, res@, *content, queue@, seen@);
    }
}

proof fn found_is_all(doc: PdfDocument, res: Obj, content: Content, queue: Seq<usize>, seen: Set<usize>)
    requires
        queued(queue, seen),
        all_seen(doc, res, content.operators(), seen),
        forall|id: usize| #[trigger]
            seen.contains(id) ==> all_seen(doc, res, doc.content_of(id as nat).operators(), seen),
        forall|id: usize| #[trigger] seen.contains(id) ==> drawn(doc, res, content.operators(), id as nat),
    ensures
        all_use(doc, res, content) == use_of_first(doc, content, queue, queue.len()),
{
    let ops = content.operators();
    let all = all_use(doc, res, content);
    let found = use_of_first(doc, content, queue, queue.len());
    assert forall|p: (Category, Seq<char>)| all.contains(p) <==> found.contains(p) by {
        if all.contains(p) && !content_need(content).contains(p) {
            let id = choose|id: nat| #[trigger]
                drawn(doc, res, ops, id) && content_need(doc.content_of(id)).contains(p);
            let path = choose|path: Seq<nat>| #[trigger]
                draws_along(doc, res, ops, path) && path.last() == id;
            path_seen(doc, res, ops, seen, path, path.len() - 1);
            let j = choose|j: int| 0 <= j < queue.len() && queue[j] == id as usize;
            assert(content_need(doc.content_of(queue[j] as nat)).contains(p));
        }
        if found.contains(p) && !content_need(content).contains(p) {
            let j = choose|j: int|
                0 <= j < queue.len() && content_need(doc.content_of((#[trigger] queue[j]) as nat)).contains(p);
            assert(seen.contains(queue[j]));
            assert(drawn(doc, res, ops, queue[j] as nat));
        }
    }
    assert(all =~= found);
}

/// What the content and the first `k` forms of the queue use.
spec fn use_of_first(doc: PdfDocument, content: Content, queue: Seq<usize>, k: nat) -> Used {
    Set::new(
        |p: (Category, Seq<char>)|
            content_need(content).contains(p) || exists|j: int|
                0 <= j < k && content_need(doc.content_of((#[trigger] queue[j]) as nat)).contains(p),
    )
}

proof fn use_of_next(doc: PdfDocument, content: Content, a: Seq<usize>, b: Seq<usize>, k: nat)
    requires
        k < a.len() <= b.len(),
        forall|j: int| 0 <= j < a.len() ==> b[j] == #[trigger] a[j],
    ensures
        use_of_first(doc, content, b, k + 1) == use_of_first(doc, content, a, k).union(
            content_need(doc.content_of(a[k as int] as nat)),
        ),
{
    let x = use_of_first(doc, content, b, k + 1);
    let y = use_of_first(doc, content, a, k).union(content_need(doc.content_of(a[k as int] as nat)));
    assert forall|p: (Category, Seq<char>)| x.contains(p) <==> y.contains(p) by {
        if x.contains(p) && !content_need(content).contains(p) {
            let j = choose|j: int|
                0 <= j < k + 1 && content_need(doc.content_of((#[trigger] b[j]) as nat)).contains(p);
            assert(b[j] == a[j]);
        }
        if y.contains(p) && !content_need(content).contains(p) {
            if use_of_first(doc, content, a, k).contains(p) {
                let j = choose|j: int|
                    0 <= j < k && content_need(doc.content_of((#[trigger] a[j]) as nat)).contains(p);
                assert(b[j] == a[j]);
            } else {
                assert(b[k as int] == a[k as int]);
            }
        }
    }
    assert(x =~= y);
}

} // verus!
