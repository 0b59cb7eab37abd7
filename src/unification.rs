use crate::types::{
    acyclic, birth_level, lemma_n_empty_fill, lemma_valid_grow,
    bounded, extends, ground, is_filled, lemma_extend_resolve, lemma_fuel, lemma_occurs_in_chain,
    content, lemma_resolved_empty, lemma_update_unmet, lemma_valid_bounded, n_empty, occurs, rsize, valid, Hole, HoleKind, Holes, Mono, Type, TypeKind,
};
use vstd::prelude::*;

verus! {

/// Why a program has no type.
#[derive(Debug)]
pub enum TypeError {
    /// A variable that no enclosing binding names.
    UnboundVariable(String),
    /// Two types that cannot be made equal, left operand first.
    UnificationMismatch(Type, Type),
    /// Filling the hole with the type would build an infinite type.
    OccursCheckFailure(Hole, Type),
}

pub open spec fn same_holes(a: Holes, b: Holes) -> bool {
    a.cells@ == b.cells@ && a.depth@ == b.depth@
}

/// What unifying `t1` with `t2` in `old` guarantees of the arena `new` after
/// the call and of its result `r`.
pub open spec fn unified(
    old: Holes,
    new: Holes,
    t1: Mono,
    t2: Mono,
    r: Result<(), TypeError>,
) -> bool
    decreases t1, 1nat,
{
    &&& new.wf()
    &&& old.len() <= new.len()
    // two arrows: the domains are unified, then, if that succeeds, the codomains
    &&& arrow_steps(old, new, t1, t2, r)
    &&& extends(old.cells@, new.cells@)
    &&& same_holes(old, new) || n_empty(new.cells@) < n_empty(old.cells@)
    // on success both sides stand for the same type
    &&& r is Ok ==> new.resolved(t1) == new.resolved(t2)
    // two types without holes unify exactly when they are equal, and nothing is filled
    &&& ground(old.resolved(t1)) && ground(old.resolved(t2)) ==> {
        &&& (r is Ok <==> old.resolved(t1) == old.resolved(t2))
        &&& (r is Err ==> r->Err_0 is UnificationMismatch)
        &&& same_holes(old, new)
    }
    // two equal types unify, and nothing is filled
    &&& t1 == t2 ==> r is Ok && same_holes(old, new)
    // a hole unifies with any type whose walk does not meet that hole
    &&& (old.resolved(t1) matches Mono::Hole(h) && !occurs(h, t2, old.cells@, old.depth@))
        ==> r is Ok
    &&& (old.resolved(t2) matches Mono::Hole(h) && !occurs(h, t1, old.cells@, old.depth@))
        ==> r is Ok
    // ... and then that hole alone is filled, with what the other side stands for
    &&& fills_hole(old, new, t1, t2)
    &&& !(old.resolved(t1) is Hole) ==> fills_hole(old, new, t2, t1)
    // a hole is never unified with an arrow whose walk meets that hole; nothing is filled
    &&& (old.resolved(t1) matches Mono::Hole(h) && old.resolved(t2) is Arrow && occurs(
        h,
        t2,
        old.cells@,
        old.depth@,
    )) ==> (r is Err && r->Err_0 is OccursCheckFailure && same_holes(old, new))
    &&& (old.resolved(t2) matches Mono::Hole(h) && old.resolved(t1) is Arrow && occurs(
        h,
        t1,
        old.cells@,
        old.depth@,
    )) ==> (r is Err && r->Err_0 is OccursCheckFailure && same_holes(old, new))
    // two types whose outermost forms differ fail with a mismatch that names
    // them, left first; nothing is filled
    &&& head_mismatch(old.resolved(t1), old.resolved(t2)) ==> {
        &&& r is Err
        &&& r->Err_0 is UnificationMismatch
        &&& old.resolved(r->Err_0->UnificationMismatch_0@) == old.resolved(t1)
        &&& old.resolved(r->Err_0->UnificationMismatch_1@) == old.resolved(t2)
        &&& same_holes(old, new)
    }
}

/// Names the arena and the result met between the two halves of unifying
/// two arrows.
pub open spec fn halfway(mid: Holes, r1: Result<(), TypeError>) -> bool {
    true
}

/// When `t1` and `t2` are both arrows, unifying them unifies the domains
/// into some arena `mid`, and fails there with that error, or goes on to
/// unify the codomains from `mid`.
pub open spec fn arrow_steps(
    old: Holes,
    new: Holes,
    t1: Mono,
    t2: Mono,
    r: Result<(), TypeError>,
) -> bool
    decreases t1, 0nat,
{
    match (t1, t2) {
        (Mono::Arrow(d1, c1), Mono::Arrow(d2, c2)) => exists|mid: Holes, r1: Result<(), TypeError>|
            #[trigger] halfway(mid, r1) && unified(old, mid, *d1, *d2, r1) && (r1 is Err ==> r == r1
                && same_holes(mid, new)) && (r1 is Ok ==> unified(mid, new, *c1, *c2, r)),
        _ => true,
    }
}

pub proof fn lemma_arrow_steps(
    old: Holes,
    new: Holes,
    d1: Mono,
    c1: Mono,
    d2: Mono,
    c2: Mono,
    r: Result<(), TypeError>,
    mid: Holes,
    r1: Result<(), TypeError>,
)
    requires
        unified(old, mid, d1, d2, r1),
        r1 is Err ==> r == r1 && same_holes(mid, new),
        r1 is Ok ==> unified(mid, new, c1, c2, r),
    ensures
        arrow_steps(old, new, Mono::Arrow(Box::new(d1), Box::new(c1)), Mono::Arrow(Box::new(d2), Box::new(c2)), r),
{
    assert(halfway(mid, r1));
}

/// Neither side is a hole, and their outermost forms differ: different
/// constructors, names or indices.
pub open spec fn head_mismatch(a: Mono, b: Mono) -> bool {
    match (a, b) {
        (Mono::Var(x), Mono::Var(y)) => x != y,
        (Mono::Gen(x), Mono::Gen(y)) => x != y,
        (Mono::Arrow(_, _), Mono::Arrow(_, _)) => false,
        (Mono::Hole(_), _) => false,
        (_, Mono::Hole(_)) => false,
        _ => true,
    }
}

/// When `side` stands for a hole that the walk of `other` does not meet,
/// that hole is filled, as `filled_with` says.
pub open spec fn fills_hole(old: Holes, new: Holes, side: Mono, other: Mono) -> bool {
    match old.resolved(side) {
        Mono::Hole(h) => !occurs(h, other, old.cells@, old.depth@) ==> filled_with(
            old,
            new,
            h,
            other,
        ),
        _ => true,
    }
}

/// Cell `j` is an empty hole born deeper than `level`.
pub open spec fn deeper(cells: Seq<HoleKind>, j: nat, level: nat) -> bool {
    j < cells.len() && !is_filled(cells[j as int]) && birth_level(cells[j as int]) > level
}

/// Cell `j` is filled with a hole added after the first `n` cells.
pub open spec fn lowered(cells: Seq<HoleKind>, n: nat, j: nat) -> bool {
    is_filled(cells[j as int]) && (content(cells[j as int]) matches Mono::Hole(k) && n <= k
        < cells.len())
}

/// The empty hole `h` of `old` is filled in `new` (with `other`), and each
/// empty hole born deeper than `h` that the walk of `other` meets is filled
/// with a new hole born at the level of `h`; nothing else changes, and the
/// new cells are those empty holes.
pub open spec fn filled_with(old: Holes, new: Holes, h: nat, other: Mono) -> bool {
    &&& h < old.len()
    &&& !is_filled(old.cells@[h as int])
    &&& is_filled(new.cells@[h as int])
    &&& forall|j: nat|
        j < old.len() && j != h && #[trigger] new.cells@[j as int] != old.cells@[j as int]
            ==> deeper(old.cells@, j, birth_level(old.cells@[h as int])) && lowered(
            new.cells@,
            old.len(),
            j,
        )
    &&& forall|j: nat|
        #[trigger] deeper(old.cells@, j, birth_level(old.cells@[h as int])) && occurs(
            j,
            other,
            old.cells@,
            old.depth@,
        ) ==> lowered(new.cells@, old.len(), j)
    &&& forall|j: int|
        old.len() <= j < new.len() ==> !is_filled(#[trigger] new.cells@[j]) && birth_level(
            new.cells@[j],
        ) == birth_level(old.cells@[h as int])
}

/// The walk of a filled hole meets an empty cell exactly when the walk of
/// what it holds does.
pub proof fn lemma_occurs_through(cells: Seq<HoleKind>, d: nat, m: nat)
    requires
        acyclic(cells, d),
        m < cells.len(),
        is_filled(cells[m as int]),
    ensures
        forall|j: nat|
            j < cells.len() && !is_filled(cells[j as int]) ==> (occurs(j, Mono::Hole(m), cells, d)
                <==> #[trigger] occurs(j, content(cells[m as int]), cells, d)),
{
    assert(bounded(Mono::Hole(m), cells, d));
    assert forall|j: nat|
        j < cells.len() && !is_filled(cells[j as int]) implies (occurs(j, Mono::Hole(m), cells, d)
            <==> #[trigger] occurs(j, content(cells[m as int]), cells, d)) by {
        lemma_fuel(content(cells[m as int]), cells, (d - 1) as nat, d, j);
    }
}

/// The empty holes born deeper than `level` that the walk of `t` meets.
fn deep_holes(t: &TypeKind, level: u32, holes: &Holes) -> (r: Vec<usize>)
    requires
        holes.wf(),
        valid(t@, holes.len()),
    ensures
        forall|x: int| 0 <= x < r@.len() ==> deeper(holes.cells@, #[trigger] r@[x] as nat, level as nat),
        forall|j: nat|
            #[trigger] deeper(holes.cells@, j, level as nat) && occurs(
                j,
                t@,
                holes.cells@,
                holes.depth@,
            ) ==> r@.contains(j as usize),
    decreases rsize(t@, holes.cells@, holes.depth@),
{
    proof {
        lemma_valid_bounded(t@, holes.cells@, holes.depth@);
    }
    match t {
        TypeKind::Hole(inner) => match &holes.cells[inner.0] {
            HoleKind::Filled(c) => {
                proof {
                    let d = holes.depth@;
                    assert(bounded(Mono::Hole(inner.0 as nat), holes.cells@, d));
                    lemma_fuel(c@, holes.cells@, (d - 1) as nat, d, 0);
                    lemma_occurs_through(holes.cells@, d, inner.0 as nat);
                }
                deep_holes(c, level, holes)
            },
            HoleKind::Empty(_, l) => {
                if *l > level {
                    let r = vec![inner.0];
                    assert(r@[0] == inner.0);
                    r
                } else {
                    Vec::new()
                }
            },
        },
        TypeKind::Arrow(a, b) => {
            let mut ra = deep_holes(a, level, holes);
            let mut rb = deep_holes(b, level, holes);
            let ghost la = ra@;
            let ghost lb = rb@;
            ra.append(&mut rb);
            proof {
                assert(ra@ == la + lb);
                assert forall|j: nat|
                    #[trigger] deeper(holes.cells@, j, level as nat) && occurs(
                        j,
                        t@,
                        holes.cells@,
                        holes.depth@,
                    ) implies ra@.contains(j as usize) by {
                    if la.contains(j as usize) {
                        let k = choose|k: int| 0 <= k < la.len() && la[k] == j as usize;
                        assert(ra@[k] == j as usize);
                    } else {
                        assert(lb.contains(j as usize));
                        let k = choose|k: int| 0 <= k < lb.len() && lb[k] == j as usize;
                        assert(ra@[la.len() + k] == j as usize);
                    }
                }
            }
            ra
        },
        _ => Vec::new(),
    }
}

/// Whether the walk of `t` meets `hole`, through arrows and filled holes.
pub fn occurs_check(hole: Hole, t: &TypeKind, holes: &Holes) -> (r: bool)
    requires
        holes.wf(),
        valid(t@, holes.len()),
    ensures
        r == occurs(hole.0 as nat, t@, holes.cells@, holes.depth@),
    decreases rsize(t@, holes.cells@, holes.depth@),
{
    proof {
        lemma_valid_bounded(t@, holes.cells@, holes.depth@);
    }
    match t {
        TypeKind::Var(_) | TypeKind::Generalized(_) => false,
        TypeKind::Hole(inner) => {
            if inner.0 == hole.0 {
                true
            } else {
                match &holes.cells[inner.0] {
                    HoleKind::Filled(c) => {
                        proof {
                            let d = holes.depth@;
                            assert(bounded(Mono::Hole(inner.0 as nat), holes.cells@, d));
                            lemma_fuel(c@, holes.cells@, (d - 1) as nat, d, hole.0 as nat);
                        }
                        occurs_check(hole, c, holes)
                    },
                    HoleKind::Empty(_, _) => false,
                }
            }
        },
        TypeKind::Arrow(a, b) => occurs_check(hole, a, holes) || occurs_check(hole, b, holes),
    }
}

/// Makes `t1` and `t2` stand for the same type, filling holes as needed.
pub fn unify(t1: &TypeKind, t2: &TypeKind, holes: &mut Holes) -> (r: Result<(), TypeError>)
    requires
        old(holes).wf(),
        valid(t1@, old(holes).len()),
        valid(t2@, old(holes).len()),
    ensures
        unified(*old(holes), *final(holes), t1@, t2@, r),
    decreases n_empty(holes.cells@), rsize(t1@, holes.cells@, holes.depth@) + rsize(
        t2@,
        holes.cells@,
        holes.depth@,
    ), 1nat,
{
    match t1 {
        TypeKind::Hole(h1) => {
            if let TypeKind::Hole(h2) = t2 {
                if h1.0 == h2.0 {
                    proof {
                        lemma_valid_bounded(t1@, holes.cells@, holes.depth@);
                        if let Mono::Hole(k) = holes.resolved(t1@) {
                            lemma_resolved_empty(t1@, holes.cells@, holes.depth@, k);
                        }
                    }
                    return Ok(());
                }
            }
            unify_hole(*h1, t2, false, holes)
        },
        _ => match t2 {
            TypeKind::Hole(h2) => unify_hole(*h2, t1, true, holes),
            TypeKind::Var(right) => {
                if let TypeKind::Var(left) = t1 {
                    if *left == *right {
                        return Ok(());
                    }
                }
                Err(TypeError::UnificationMismatch(Box::new(t1.duplicate()), Box::new(t2.duplicate())))
            },
            TypeKind::Generalized(right) => {
                if let TypeKind::Generalized(left) = t1 {
                    if *left == *right {
                        return Ok(());
                    }
                }
                Err(TypeError::UnificationMismatch(Box::new(t1.duplicate()), Box::new(t2.duplicate())))
            },
            TypeKind::Arrow(l2, r2) => {
                if let TypeKind::Arrow(l1, r1) = t1 {
                    let ghost s0 = *holes;
                    proof {
                        lemma_valid_bounded(l1@, holes.cells@, holes.depth@);
                        lemma_valid_bounded(l2@, holes.cells@, holes.depth@);
                    }
                    let first = unify(l1, l2, holes);
                    let ghost s1 = *holes;
                    match first {
                        Ok(()) => {},
                        Err(e) => {
                            let out: Result<(), TypeError> = Err(e);
                            proof {
                                lemma_arrow_steps(s0, s1, l1@, r1@, l2@, r2@, out, s1, first);
                            }
                            return out;
                        },
                    }
                    proof {
                        lemma_valid_grow(l1@, s0.len(), s1.len());
                        lemma_valid_grow(l2@, s0.len(), s1.len());
                        lemma_valid_grow(r1@, s0.len(), s1.len());
                        lemma_valid_grow(r2@, s0.len(), s1.len());
                    }
                    let res = unify(r1, r2, holes);
                    proof {
                        lemma_arrow_steps(s0, *holes, l1@, r1@, l2@, r2@, res, s1, first);
                        let s2 = *holes;
                        lemma_valid_bounded(l1@, s1.cells@, s1.depth@);
                        lemma_valid_bounded(l2@, s1.cells@, s1.depth@);
                        lemma_extend_resolve(l1@, s1.cells@, s1.depth@, s2.cells@, s2.depth@);
                        lemma_extend_resolve(l2@, s1.cells@, s1.depth@, s2.cells@, s2.depth@);
                        assert(extends(s0.cells@, s2.cells@)) by {
                            assert forall|i: int|
                                0 <= i < s0.cells@.len() && is_filled(
                                    #[trigger] s0.cells@[i],
                                ) implies s2.cells@[i] == s0.cells@[i] by {
                                assert(s1.cells@[i] == s0.cells@[i]);
                            }
                        }
                    }
                    res
                } else {
                    Err(
                        TypeError::UnificationMismatch(
                            Box::new(t1.duplicate()),
                            Box::new(t2.duplicate()),
                        ),
                    )
                }
            },
        },
    }
}

/// Unifies a hole with a type; `flip` tells that the hole was the right
/// operand, so that an error names the operands in their first order.
///
/// An empty hole is filled with `t`, unless the walk of `t` meets the hole,
/// through arrows and filled holes: then the unification fails. Each empty
/// hole born deeper than the filled one that the walk of `t` meets is then
/// filled with a new hole born at the filled one's level, so that no hole
/// reached from an outer scope is later generalized. A filled hole is
/// unified through what it holds.
pub fn unify_hole(hole: Hole, t: &TypeKind, flip: bool, holes: &mut Holes) -> (r: Result<
    (),
    TypeError,
>)
    requires
        old(holes).wf(),
        hole.0 < old(holes).len(),
        valid(t@, old(holes).len()),
    ensures
        !is_filled(old(holes).cells@[hole.0 as int]) ==> {
            &&& (r is Err <==> occurs(hole.0 as nat, t@, old(holes).cells@, old(holes).depth@))
            &&& r is Err ==> r->Err_0 is OccursCheckFailure && same_holes(
                *old(holes),
                *final(holes),
            )
            &&& r is Ok ==> final(holes).cells@[hole.0 as int] == HoleKind::Filled(Box::new(*t))
                && filled_with(*old(holes), *final(holes), hole.0 as nat, t@)
        },
        is_filled(old(holes).cells@[hole.0 as int]) ==> {
            &&& flip ==> unified(
                *old(holes),
                *final(holes),
                t@,
                content(old(holes).cells@[hole.0 as int]),
                r,
            )
            &&& !flip ==> unified(
                *old(holes),
                *final(holes),
                content(old(holes).cells@[hole.0 as int]),
                t@,
                r,
            )
        },
        flip && !(t@ is Hole) ==> unified(
            *old(holes),
            *final(holes),
            t@,
            Mono::Hole(hole.0 as nat),
            r,
        ),
        !flip && t@ != Mono::Hole(hole.0 as nat) ==> unified(
            *old(holes),
            *final(holes),
            Mono::Hole(hole.0 as nat),
            t@,
            r,
        ),
    decreases n_empty(holes.cells@), rsize(Mono::Hole(hole.0 as nat), holes.cells@, holes.depth@)
        + rsize(t@, holes.cells@, holes.depth@), 0nat,
{
    let ghost s0 = *holes;
    let ghost d = holes.depth@;
    let ghost h = hole.0 as nat;
    proof {
        lemma_valid_bounded(t@, holes.cells@, d);
        assert(bounded(Mono::Hole(h), holes.cells@, d));
    }
    let cell = hole.get(holes);
    match cell {
        HoleKind::Empty(_, level_h) => {
            assert(s0.resolved(Mono::Hole(h)) == Mono::Hole(h));
            proof {
                if s0.resolved(t@) is Hole && occurs(h, t@, s0.cells@, d) {
                    lemma_occurs_in_chain(t@, s0.cells@, d, h);
                }
            }
            assert(birth_level(s0.cells@[h as int]) == level_h);
            if occurs_check(hole, t, holes) {
                Err(TypeError::OccursCheckFailure(hole, Box::new(t.duplicate())))
            } else {
                let list = deep_holes(t, level_h, holes);
                let filler = Box::new(t.duplicate());
                let ghost fv = filler;
                hole.fill_with(holes, filler);
                let ghost s1 = *holes;
                let ghost n1 = s0.cells@.len();
                proof {
                    lemma_n_empty_fill(s0.cells@, h as int, HoleKind::Filled(fv));
                }
                let mut idx: usize = 0;
                while idx < list.len()
                    invariant
                        holes.wf(),
                        n1 <= holes.len(),
                        idx <= list@.len(),
                        s1.cells@ == s0.cells@.update(h as int, HoleKind::Filled(fv)),
                        s1.cells@.len() == n1,
                        s0.cells@.len() == n1,
                        h < n1,
                        !is_filled(s0.cells@[h as int]),
                        birth_level(s0.cells@[h as int]) == level_h,
                        forall|x: int|
                            0 <= x < list@.len() ==> deeper(
                                s0.cells@,
                                #[trigger] list@[x] as nat,
                                level_h as nat,
                            ),
                        forall|i: nat|
                            i < n1 && #[trigger] holes.cells@[i as int] != s1.cells@[i as int]
                                ==> deeper(s0.cells@, i, level_h as nat) && lowered(
                                holes.cells@,
                                n1,
                                i,
                            ),
                        forall|x: int|
                            0 <= x < idx ==> lowered(holes.cells@, n1, #[trigger] list@[x] as nat),
                        forall|j: int|
                            n1 <= j < holes.len() ==> !is_filled(#[trigger] holes.cells@[j])
                                && birth_level(holes.cells@[j]) == level_h,
                        n_empty(holes.cells@) == n_empty(s1.cells@),
                    decreases list@.len() - idx,
                {
                    let k = list[idx];
                    assert(deeper(s0.cells@, k as nat, level_h as nat));
                    let cell_k = Hole(k).get(holes);
                    match cell_k {
                        HoleKind::Empty(name, _) => {
                            let ghost before = holes.cells@;
                            assert(before[k as int] == s1.cells@[k as int]);
                            let fresh = Hole::new(holes, name, level_h);
                            let ghost pushed = holes.cells@;
                            proof {
                                assert(pushed[k as int] == before[k as int]);
                                assert(!occurs(
                                    k as nat,
                                    Mono::Hole(fresh.0 as nat),
                                    pushed,
                                    holes.depth@,
                                ));
                            }
                            let link = Box::new(TypeKind::Hole(fresh));
                            let ghost lv = link;
                            Hole(k).fill_with(holes, link);
                            proof {
                                lemma_n_empty_fill(pushed, k as int, HoleKind::Filled(lv));
                                let cur = holes.cells@;
                                assert(cur == pushed.update(k as int, HoleKind::Filled(lv)));
                                assert(lowered(cur, n1, k as nat));
                                assert forall|i: nat|
                                    i < n1 && #[trigger] cur[i as int] != s1.cells@[i as int]
                                        implies deeper(s0.cells@, i, level_h as nat) && lowered(
                                    cur,
                                    n1,
                                    i,
                                ) by {
                                    if i != k {
                                        assert(cur[i as int] == before[i as int]);
                                    }
                                }
                                assert forall|x: int| 0 <= x < idx + 1 implies lowered(
                                    cur,
                                    n1,
                                    #[trigger] list@[x] as nat,
                                ) by {
                                    if x < idx {
                                        assert(lowered(before, n1, list@[x] as nat));
                                        assert(list@[x] != k);
                                    }
                                }
                                assert forall|j: int| n1 <= j < cur.len() implies !is_filled(
                                    #[trigger] cur[j],
                                ) && birth_level(cur[j]) == level_h by {
                                    if j < before.len() {
                                        assert(cur[j] == before[j]);
                                    }
                                }
                            }
                        },
                        HoleKind::Filled(_) => {
                            proof {
                                assert(birth_level(s0.cells@[k as int]) > level_h);
                                assert(k as nat != h);
                                assert(s0.cells@.update(h as int, HoleKind::Filled(fv))[k as int]
                                    == s0.cells@[k as int]);
                                assert(s1.cells@[k as int] == s0.cells@[k as int]);
                                assert(holes.cells@[k as int] != s1.cells@[k as int]);
                            }
                        },
                    }
                    idx = idx + 1;
                }
                proof {
                    let fin = *holes;
                    assert(fin.cells@[h as int] == HoleKind::Filled(fv));
                    assert(bounded(Mono::Hole(h), fin.cells@, fin.depth@));
                    lemma_fuel(t@, fin.cells@, (fin.depth@ - 1) as nat, fin.depth@, 0);
                    assert forall|j: nat|
                        #[trigger] deeper(s0.cells@, j, level_h as nat) && occurs(
                            j,
                            t@,
                            s0.cells@,
                            s0.depth@,
                        ) implies lowered(fin.cells@, n1, j) by {
                        assert(list@.contains(j as usize));
                        let x = choose|x: int| 0 <= x < list@.len() && list@[x] == j as usize;
                        assert(lowered(fin.cells@, n1, list@[x] as nat));
                    }
                    assert forall|j: nat|
                        j < n1 && j != h && #[trigger] fin.cells@[j as int] != s0.cells@[j as int]
                            implies deeper(s0.cells@, j, level_h as nat) && lowered(
                        fin.cells@,
                        n1,
                        j,
                    ) by {
                        assert(s1.cells@[j as int] == s0.cells@[j as int]);
                    }
                    assert(extends(s0.cells@, fin.cells@)) by {
                        assert forall|i: int|
                            0 <= i < n1 && is_filled(#[trigger] s0.cells@[i]) implies fin.cells@[i]
                            == s0.cells@[i] by {
                            if i != h {
                                assert(s1.cells@[i] == s0.cells@[i]);
                                if fin.cells@[i] != s1.cells@[i] {
                                    assert(deeper(s0.cells@, i as nat, level_h as nat));
                                }
                            }
                        }
                    }
                    assert(filled_with(s0, fin, h, t@));
                }
                Ok(())
            }
        },
        HoleKind::Filled(c) => {
            proof {
                lemma_fuel(c@, s0.cells@, (d - 1) as nat, d, 0);
                if let Mono::Hole(k) = s0.resolved(t@) {
                    lemma_resolved_empty(t@, s0.cells@, d, k);
                    lemma_fuel(c@, s0.cells@, (d - 1) as nat, d, k);
                }
            }
            let res = if flip {
                unify(t, &c, holes)
            } else {
                unify(&c, t, holes)
            };
            proof {
                let s1 = *holes;
                lemma_occurs_through(s0.cells@, d, h);
                assert(s1.cells@[h as int] == s0.cells@[h as int]);
                assert(bounded(Mono::Hole(h), s1.cells@, s1.depth@));
                lemma_fuel(c@, s1.cells@, (s1.depth@ - 1) as nat, s1.depth@, 0);
            }
            res
        },
    }
}

} // verus!
