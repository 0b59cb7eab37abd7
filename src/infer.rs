use crate::expr::{annots_valid, height, lemma_annots_grow, ExprKind, Expr, Lit};
use crate::types::{
    acyclic, birth_level, bool, bounded, content, extends, integer, is_filled, lemma_extend_resolve,
    lemma_fuel, lemma_n_empty_len, lemma_resolve_fixed, lemma_resolved_empty, lemma_valid_bounded,
    lemma_valid_grow, mentions, n_empty, occurs, resolve, rsize, string, substitute, valid, views,
    Hole, HoleKind, Holes, Mono, Scheme, Type, TypeKind,
};
use crate::unification::{same_holes, unified, unify, TypeError};
use vstd::prelude::*;
use vstd::string::StringExecFns;

verus! {

/// The environment, the current level, and the arena of holes of one
/// inference run.
pub struct Context {
    /// Numbers the names of new holes and of quantified positions.
    pub current_id: u32,
    pub current_level: u32,
    /// Bindings in scope, innermost last.
    pub types: Vec<(String, Scheme)>,
    pub holes: Holes,
}

/// The decimal digit `d`.
pub open spec fn digit(d: nat) -> char {
    if d == 0 { '0' } else if d == 1 { '1' } else if d == 2 { '2' } else if d == 3 { '3' }
    else if d == 4 { '4' } else if d == 5 { '5' } else if d == 6 { '6' } else if d == 7 { '7' }
    else if d == 8 { '8' } else { '9' }
}

/// `n` written in decimal.
pub open spec fn decimal(n: nat) -> Seq<char>
    decreases n,
{
    if n < 10 {
        seq![digit(n)]
    } else {
        decimal(n / 10).push(digit(n % 10))
    }
}

/// The debug name that number `id` gives.
pub open spec fn name_of(id: nat) -> Seq<char> {
    seq!['t', '_'] + decimal(id)
}

/// Relies on `format!`: a `u32` written in decimal, without padding.
#[verifier::external_body]
fn decimal_string(id: u32) -> (r: String)
    ensures
        r@ == decimal(id as nat),
{
    format!("{id}")
}

/// The position of the innermost binding of `name`.
pub open spec fn lookup(env: Seq<(String, Scheme)>, name: Seq<char>) -> Option<int>
    decreases env.len(),
{
    if env.len() == 0 {
        None
    } else if env.last().0@ == name {
        Some(env.len() - 1)
    } else {
        lookup(env.drop_last(), name)
    }
}

/// The holes `start`, `start + 1`, ..., `start + n - 1`.
pub open spec fn fresh(start: nat, n: nat) -> Seq<Mono> {
    Seq::new(n, |j: int| Mono::Hole((start + j) as nat))
}

/// Every scheme of `env` names only cells of an arena of `n` cells.
pub open spec fn env_valid(env: Seq<(String, Scheme)>, n: nat) -> bool {
    forall|i: int| 0 <= i < env.len() ==> valid(#[trigger] env[i].1.t@, n)
}

/// An empty cell that is local to a binding deeper than `level`.
pub open spec fn eligible(c: HoleKind, level: nat) -> bool {
    !is_filled(c) && birth_level(c) > level
}

/// What generalizing at `level` leaves of the cells `old`, in `new`: a cell
/// that was not eligible is untouched, and a changed cell now holds a
/// quantified position in `lo .. hi`.
pub open spec fn generalized_cells(
    old: Seq<HoleKind>,
    new: Seq<HoleKind>,
    level: nat,
    lo: nat,
    hi: nat,
) -> bool {
    &&& old.len() == new.len()
    &&& forall|i: int| 0 <= i < old.len() && !eligible(#[trigger] old[i], level) ==> new[i] == old[i]
    &&& forall|i: int|
        0 <= i < old.len() && #[trigger] new[i] != old[i] ==> holds_gen(new[i], lo, hi)
}

/// The cell holds a quantified position in `lo .. hi`.
pub open spec fn holds_gen(c: HoleKind, lo: nat, hi: nat) -> bool {
    is_filled(c) && (content(c) matches Mono::Gen(k) && lo <= k < hi)
}

/// The cell is empty and was born at `level`.
pub open spec fn empty_at(c: HoleKind, level: u32) -> bool {
    c matches HoleKind::Empty(_, l) && l == level
}

/// The eligible holes of a resolved type, in the order of their first
/// occurrence in a walk that visits domains before codomains, after those
/// already in `acc`.
pub open spec fn gen_order(m: Mono, cells: Seq<HoleKind>, level: nat, acc: Seq<nat>) -> Seq<nat>
    decreases m,
{
    match m {
        Mono::Hole(i) => if i < cells.len() && eligible(cells[i as int], level) && !acc.contains(
            i,
        ) {
            acc.push(i)
        } else {
            acc
        },
        Mono::Arrow(a, b) => gen_order(*b, cells, level, gen_order(*a, cells, level, acc)),
        _ => acc,
    }
}

/// `cells` is `base` with the `k`-th hole of `order` filled with the
/// quantified position `lo + k`, and nothing else changed.
pub open spec fn marked(
    base: Seq<HoleKind>,
    cells: Seq<HoleKind>,
    order: Seq<nat>,
    lo: nat,
    level: nat,
) -> bool {
    &&& cells.len() == base.len()
    &&& order.no_duplicates()
    &&& forall|k: int|
        0 <= k < order.len() ==> #[trigger] order[k] < base.len() && eligible(
            base[order[k] as int],
            level,
        ) && is_filled(cells[order[k] as int]) && content(cells[order[k] as int]) == Mono::Gen(
            (lo + k) as nat,
        )
    &&& forall|i: nat| i < base.len() && !order.contains(i) ==> #[trigger] cells[i as int] == base[i as int]
}

/// An empty cell of a marked arena is not in the order, and is as it was.
pub proof fn lemma_unmarked(
    base: Seq<HoleKind>,
    cells: Seq<HoleKind>,
    order: Seq<nat>,
    lo: nat,
    level: nat,
    h: nat,
)
    requires
        marked(base, cells, order, lo, level),
        h < base.len(),
        !is_filled(cells[h as int]),
    ensures
        !order.contains(h),
        cells[h as int] == base[h as int],
{
    if order.contains(h) {
        let k = choose|k: int| 0 <= k < order.len() && order[k] == h;
        assert(order[k] < base.len());
    }
}

/// Filling the next eligible hole extends the order by that hole.
pub proof fn lemma_mark_next(
    base: Seq<HoleKind>,
    cells: Seq<HoleKind>,
    order: Seq<nat>,
    lo: nat,
    level: nat,
    h: nat,
    c: HoleKind,
)
    requires
        marked(base, cells, order, lo, level),
        h < base.len(),
        !order.contains(h),
        eligible(base[h as int], level),
        is_filled(c),
        content(c) == Mono::Gen((lo + order.len()) as nat),
    ensures
        marked(base, cells.update(h as int, c), order.push(h), lo, level),
{
    let s1 = cells.update(h as int, c);
    let o1 = order.push(h);
    assert forall|k: int| 0 <= k < o1.len() implies #[trigger] o1[k] < base.len() && eligible(
        base[o1[k] as int],
        level,
    ) && is_filled(s1[o1[k] as int]) && content(s1[o1[k] as int]) == Mono::Gen(
        (lo + k) as nat,
    ) by {
        if k < order.len() {
            assert(o1[k] == order[k]);
            assert(order[k] != h);
        }
    }
    assert forall|i: nat| i < base.len() && !o1.contains(i) implies #[trigger] s1[i as int]
        == base[i as int] by {
        if order.contains(i) {
            let k = choose|k: int| 0 <= k < order.len() && order[k] == i;
            assert(o1[k] == i);
        }
        assert(o1[order.len() as int] == h);
    }
    assert forall|a: int, b: int| 0 <= a < o1.len() && 0 <= b < o1.len() && a != b implies o1[a]
        != o1[b] by {
        if a < order.len() && b < order.len() {
            assert(o1[a] == order[a] && o1[b] == order[b]);
        } else if a < order.len() {
            assert(order.contains(o1[a]));
        } else {
            assert(order.contains(o1[b]));
        }
    }
}

/// No hole that `m` stands for in `cells` is an eligible empty cell.
pub open spec fn none_eligible(m: Mono, cells: Seq<HoleKind>, depth: nat, level: nat) -> bool {
    forall|i: nat| #[trigger] mentions(resolve(m, cells, depth), i) ==> !eligible(cells[i as int], level)
}

pub proof fn lemma_env_grow(env: Seq<(String, Scheme)>, n: nat, m: nat)
    requires
        env_valid(env, n),
        n <= m,
    ensures
        env_valid(env, m),
{
    assert forall|i: int| 0 <= i < env.len() implies valid(#[trigger] env[i].1.t@, m) by {
        lemma_valid_grow(env[i].1.t@, n, m);
    }
}

/// Resolving again, in an arena that only appends cells, changes nothing.
pub proof fn lemma_resolved_fixed_in(m: Mono, s0: Seq<HoleKind>, s1: Seq<HoleKind>, d: nat, d1: nat)
    requires
        bounded(m, s0, d),
        s0.len() <= s1.len(),
        s1.subrange(0, s0.len() as int) == s0,
    ensures
        resolve(resolve(m, s0, d), s1, d1) == resolve(m, s0, d),
        forall|h: nat| #[trigger] mentions(resolve(m, s0, d), h) ==> h < s0.len(),
{
    let r = resolve(m, s0, d);
    assert forall|h: nat| #[trigger] mentions(r, h) implies h < s1.len() && !is_filled(
        s1[h as int],
    ) by {
        lemma_resolved_empty(m, s0, d, h);
        assert(s1.subrange(0, s0.len() as int)[h as int] == s1[h as int]);
    }
    assert forall|h: nat| #[trigger] mentions(r, h) implies h < s0.len() by {
        lemma_resolved_empty(m, s0, d, h);
    }
    lemma_resolve_fixed(r, s1, d1);
}

pub proof fn lemma_substitute_valid(m: Mono, subs: Seq<Mono>, n: nat)
    requires
        forall|h: nat| #[trigger] mentions(m, h) ==> h < n,
        forall|j: int| 0 <= j < subs.len() ==> valid(#[trigger] subs[j], n),
    ensures
        valid(substitute(m, subs), n),
    decreases m,
{
    match m {
        Mono::Hole(i) => {
            assert(mentions(m, i));
        },
        Mono::Arrow(a, b) => {
            assert forall|h: nat| #[trigger] mentions(*a, h) implies h < n by {
                assert(mentions(m, h));
            }
            assert forall|h: nat| #[trigger] mentions(*b, h) implies h < n by {
                assert(mentions(m, h));
            }
            lemma_substitute_valid(*a, subs, n);
            lemma_substitute_valid(*b, subs, n);
        },
        _ => {},
    }
}

impl Scheme {
    /// A deep copy.
    pub fn duplicate(&self) -> (r: Scheme)
        ensures
            r.binds@ == self.binds@,
            r.t == self.t,
    {
        let mut binds: Vec<String> = Vec::new();
        let mut k: usize = 0;
        while k < self.binds.len()
            invariant
                k <= self.binds@.len(),
                binds@ == self.binds@.subrange(0, k as int),
            decreases self.binds@.len() - k,
        {
            binds.push(self.binds[k].clone());
            k = k + 1;
            assert(binds@ =~= self.binds@.subrange(0, k as int));
        }
        assert(binds@ =~= self.binds@);
        Scheme { binds, t: Box::new(self.t.duplicate()) }
    }
}

/// The innermost binding of `name` in `env`.
fn lookup_scheme(env: &Vec<(String, Scheme)>, name: &String) -> (r: Option<usize>)
    ensures
        r matches Some(i) ==> i < env@.len() && lookup(env@, name@) == Some(i as int),
        r is None ==> lookup(env@, name@) is None,
{
    let mut i: usize = env.len();
    assert(env@.subrange(0, i as int) =~= env@);
    while i > 0
        invariant
            i <= env@.len(),
            lookup(env@, name@) == lookup(env@.subrange(0, i as int), name@),
        decreases i,
    {
        assert(env@.subrange(0, i as int).drop_last() =~= env@.subrange(0, i - 1));
        if env[i - 1].0 == *name {
            return Some(i - 1);
        }
        i = i - 1;
    }
    None
}

/// Walks `t`, filling each eligible empty hole with the next quantified
/// position, domain before codomain.
fn generalize_type(
    t: &TypeKind,
    level: u32,
    counter: &mut u32,
    holes: &mut Holes,
    Ghost(base): Ghost<Seq<HoleKind>>,
    Ghost(base_depth): Ghost<nat>,
    Ghost(acc): Ghost<Seq<nat>>,
    Ghost(lo): Ghost<nat>,
)
    requires
        old(holes).wf(),
        valid(t@, old(holes).len()),
        acyclic(base, base_depth),
        *old(counter) < u32::MAX ==> marked(base, old(holes).cells@, acc, lo, level as nat)
            && *old(counter) == lo + acc.len(),
    ensures
        *final(counter) < u32::MAX ==> marked(
            base,
            final(holes).cells@,
            gen_order(resolve(t@, base, base_depth), base, level as nat, acc),
            lo,
            level as nat,
        ) && *final(counter) == lo + gen_order(resolve(t@, base, base_depth), base, level as nat, acc).len(),
        final(holes).wf(),
        extends(old(holes).cells@, final(holes).cells@),
        generalized_cells(
            old(holes).cells@,
            final(holes).cells@,
            level as nat,
            *old(counter) as nat,
            *final(counter) as nat,
        ),
        *old(counter) <= *final(counter),
        *final(counter) - *old(counter) + n_empty(final(holes).cells@) <= n_empty(
            old(holes).cells@,
        ),
        (final(holes).cells@ == old(holes).cells@ && final(holes).depth == old(holes).depth)
            || n_empty(final(holes).cells@) < n_empty(old(holes).cells@),
        *final(counter) < u32::MAX ==> none_eligible(
            t@,
            final(holes).cells@,
            final(holes).depth@,
            level as nat,
        ),
    decreases n_empty(holes.cells@), rsize(t@, holes.cells@, holes.depth@),
{
    let ghost s0 = *holes;
    let ghost d = holes.depth@;
    proof {
        lemma_valid_bounded(t@, holes.cells@, d);
    }
    match t {
        TypeKind::Hole(inner) => {
            let h = *inner;
            let ghost hn = h.0 as nat;
            assert(bounded(Mono::Hole(hn), holes.cells@, d));
            let cell = h.get(holes);
            match cell {
                HoleKind::Empty(_, hole_level) => {
                    if hole_level > level && *counter < u32::MAX {
                        let g = Box::new(TypeKind::Generalized(*counter));
                        let ghost gv = g;
                        proof {
                            assert(t@ == Mono::Hole(hn));
                            assert(!occurs(hn, g@, holes.cells@, d));
                        }
                        h.fill_with(holes, g);
                        proof {
                            lemma_n_empty_len(holes.cells@);
                            let s1 = *holes;
                            assert(bounded(Mono::Hole(hn), s1.cells@, s1.depth@));
                            assert(s1.cells@[hn as int] == HoleKind::Filled(gv));
                            assert(content(s1.cells@[hn as int]) == Mono::Gen(*counter as nat));
                            assert(s1.depth@ > 0);
                            assert(resolve(Mono::Gen(*counter as nat), s1.cells@, (s1.depth@ - 1) as nat) == Mono::Gen(*counter as nat));
                            assert(resolve(Mono::Hole(hn), s1.cells@, s1.depth@) == Mono::Gen(*counter as nat));
                            assert(resolve(t@, s1.cells@, s1.depth@) == Mono::Gen(
                                *counter as nat,
                            ));
                            assert forall|i: int|
                                0 <= i < s0.cells@.len() && #[trigger] s1.cells@[i]
                                    != s0.cells@[i] implies holds_gen(s1.cells@[i], *counter as nat, (*counter + 1) as nat) by {
                                assert(i == hn);
                            }
                            lemma_unmarked(base, s0.cells@, acc, lo, level as nat, hn);
                            assert(resolve(t@, base, base_depth) == Mono::Hole(hn));
                            assert(gen_order(Mono::Hole(hn), base, level as nat, acc) == acc.push(hn));
                            lemma_mark_next(base, s0.cells@, acc, lo, level as nat, hn, HoleKind::Filled(gv));
                        }
                        *counter = *counter + 1;
                    } else if hole_level <= level {
                        proof {
                            assert(t@ == Mono::Hole(hn));
                            assert(resolve(t@, s0.cells@, d) == Mono::Hole(hn));
                            assert forall|i: nat| #[trigger]
                                mentions(resolve(t@, s0.cells@, d), i) implies !eligible(
                                s0.cells@[i as int],
                                level as nat,
                            ) by {
                                assert(i == hn);
                            }
                            if *counter < u32::MAX {
                                lemma_unmarked(base, s0.cells@, acc, lo, level as nat, hn);
                                assert(resolve(t@, base, base_depth) == Mono::Hole(hn));
                            }
                        }
                    }
                },
                HoleKind::Filled(c) => {
                    proof {
                        lemma_fuel(c@, s0.cells@, (d - 1) as nat, d, 0);
                        if *counter < u32::MAX {
                            assert(t@ == Mono::Hole(hn));
                            if acc.contains(hn) {
                                let k = choose|k: int| 0 <= k < acc.len() && acc[k] == hn;
                                assert(acc[k] < base.len());
                                assert(resolve(t@, base, base_depth) == Mono::Hole(hn));
                                assert(c@ == Mono::Gen((lo + k) as nat));
                            } else {
                                assert(s0.cells@[hn as int] == base[hn as int]);
                                assert(bounded(Mono::Hole(hn), base, base_depth));
                                lemma_fuel(c@, base, (base_depth - 1) as nat, base_depth, 0);
                            }
                            assert(gen_order(resolve(t@, base, base_depth), base, level as nat, acc)
                                == gen_order(resolve(c@, base, base_depth), base, level as nat, acc));
                        }
                    }
                    generalize_type(&c, level, counter, holes, Ghost(base), Ghost(base_depth), Ghost(acc), Ghost(lo));
                    proof {
                        let s1 = *holes;
                        assert(s1.cells@[hn as int] == s0.cells@[hn as int]);
                        assert(bounded(Mono::Hole(hn), s1.cells@, s1.depth@));
                        lemma_fuel(c@, s1.cells@, (s1.depth@ - 1) as nat, s1.depth@, 0);
                        assert(resolve(t@, s1.cells@, s1.depth@) == resolve(
                            c@,
                            s1.cells@,
                            s1.depth@,
                        ));
                    }
                },
            }
        },
        TypeKind::Arrow(a, b) => {
            let ghost c0 = *counter;
            let ghost acc1 = gen_order(resolve(a@, base, base_depth), base, level as nat, acc);
            generalize_type(a, level, counter, holes, Ghost(base), Ghost(base_depth), Ghost(acc), Ghost(lo));
            let ghost s1 = *holes;
            let ghost c1 = *counter;
            proof {
                lemma_valid_bounded(a@, s1.cells@, s1.depth@);
            }
            generalize_type(b, level, counter, holes, Ghost(base), Ghost(base_depth), Ghost(acc1), Ghost(lo));
            proof {
                let s2 = *holes;
                let c2 = *counter;
                lemma_extend_resolve(a@, s1.cells@, s1.depth@, s2.cells@, s2.depth@);
                assert(extends(s0.cells@, s2.cells@)) by {
                    assert forall|i: int|
                        0 <= i < s0.cells@.len() && is_filled(
                            #[trigger] s0.cells@[i],
                        ) implies s2.cells@[i] == s0.cells@[i] by {
                        assert(s1.cells@[i] == s0.cells@[i]);
                    }
                }
                assert forall|i: int|
                    0 <= i < s0.cells@.len() && !eligible(
                        #[trigger] s0.cells@[i],
                        level as nat,
                    ) implies s2.cells@[i] == s0.cells@[i] by {
                    assert(s1.cells@[i] == s0.cells@[i]);
                }
                assert forall|i: int|
                    0 <= i < s0.cells@.len() && #[trigger] s2.cells@[i] != s0.cells@[i] implies holds_gen(s2.cells@[i], c0 as nat, c2 as nat) by {
                    if s1.cells@[i] == s0.cells@[i] {
                        assert(s2.cells@[i] != s1.cells@[i]);
                    } else {
                        assert(is_filled(s1.cells@[i]));
                        assert(s2.cells@[i] == s1.cells@[i]);
                    }
                }
                if c2 < u32::MAX {
                    let ma = resolve(a@, s1.cells@, s1.depth@);
                    assert forall|h: nat| #[trigger] mentions(ma, h) implies h < s2.cells@.len()
                        && !is_filled(s2.cells@[h as int]) by {
                        lemma_resolved_empty(a@, s1.cells@, s1.depth@, h);
                        assert(!eligible(s1.cells@[h as int], level as nat));
                        assert(s2.cells@[h as int] == s1.cells@[h as int]);
                    }
                    lemma_resolve_fixed(ma, s2.cells@, s2.depth@);
                    assert forall|i: nat| #[trigger]
                        mentions(resolve(t@, s2.cells@, s2.depth@), i) implies !eligible(
                        s2.cells@[i as int],
                        level as nat,
                    ) by {
                        if mentions(ma, i) {
                            lemma_resolved_empty(a@, s1.cells@, s1.depth@, i);
                            assert(s2.cells@[i as int] == s1.cells@[i as int]);
                        } else {
                            assert(mentions(resolve(b@, s2.cells@, s2.depth@), i));
                        }
                    }
                }
            }
        },
        _ => {},
    }
}

impl Context {
    /// A context with an empty environment at level 0.
    pub fn new() -> (r: Context)
        ensures
            r.wf(),
            r.types@.len() == 0,
            r.current_level == 0,
            r.current_id == 0,
            r.holes.len() == 0,
    {
        Context { current_id: 0, current_level: 0, types: Vec::new(), holes: Holes::new() }
    }

    pub open spec fn wf(&self) -> bool {
        self.holes.wf() && env_valid(self.types@, self.holes.len())
    }

    /// A new name built from the current id, which then moves on (and stays
    /// put once it reaches the largest `u32`).
    fn new_name(&mut self) -> (r: String)
        ensures
            r@ == name_of(old(self).current_id as nat),
            final(self).current_id == if old(self).current_id < u32::MAX {
                (old(self).current_id + 1) as u32
            } else {
                old(self).current_id
            },
            final(self).current_level == old(self).current_level,
            final(self).types == old(self).types,
            final(self).holes == old(self).holes,
    {
        let digits = decimal_string(self.current_id);
        let name = "t_".to_owned().concat(digits.as_str());
        proof {
            reveal_strlit("t_");
            assert(name@ =~= name_of(old(self).current_id as nat));
        }
        if self.current_id < u32::MAX {
            self.current_id = self.current_id + 1;
        }
        name
    }

    /// A new empty hole born at the current level.
    pub fn new_hole_type(&mut self) -> (r: Type)
        requires
            old(self).wf(),
        ensures
            final(self).wf(),
            r@ == Mono::Hole(old(self).holes.len()),
            hole_made(*old(self), *final(self)),
            final(self).holes.cells@.last() matches HoleKind::Empty(name, _) && name@
                == name_of(old(self).current_id as nat),
            final(self).types == old(self).types,
    {
        let level = self.current_level;
        let name = self.new_name();
        let hole = Hole::new(&mut self.holes, name, level);
        proof {
            assert(self.holes.cells@.drop_last() =~= old(self).holes.cells@);
            lemma_env_grow(self.types@, old(self).holes.len(), self.holes.len());
        }
        Box::new(TypeKind::Hole(hole))
    }

    pub fn enter_level(&mut self)
        requires
            old(self).current_level < u32::MAX,
        ensures
            final(self).current_level == old(self).current_level + 1,
            final(self).current_id == old(self).current_id,
            final(self).types == old(self).types,
            final(self).holes == old(self).holes,
    {
        self.current_level = self.current_level + 1;
    }

    pub fn exit_level(&mut self)
        requires
            old(self).current_level > 0,
        ensures
            final(self).current_level == old(self).current_level - 1,
            final(self).current_id == old(self).current_id,
            final(self).types == old(self).types,
            final(self).holes == old(self).holes,
    {
        self.current_level = self.current_level - 1;
    }

    /// Turns a scheme into a monotype: one new empty hole per quantified
    /// position, in order, replaces that position.
    pub fn instantiate(&mut self, scheme: Scheme) -> (r: Type)
        requires
            old(self).wf(),
            valid(scheme.t@, old(self).holes.len()),
        ensures
            instantiated(*old(self), *final(self), scheme.t@, scheme.binds@.len(), r@),
            final(self).types == old(self).types,
    {
        let ghost n0 = self.holes.len();
        let mut substitutions: Vec<Type> = Vec::new();
        let mut k: usize = 0;
        while k < scheme.binds.len()
            invariant
                self.wf(),
                k <= scheme.binds@.len(),
                substitutions@.len() == k,
                self.holes.len() == n0 + k,
                forall|j: int| 0 <= j < k ==> #[trigger] substitutions@[j]@ == Mono::Hole(
                    (n0 + j) as nat,
                ),
                self.holes.cells@.subrange(0, n0 as int) == old(self).holes.cells@,
                forall|j: int|
                    n0 <= j < self.holes.len() ==> empty_at(#[trigger] self.holes.cells@[j], old(self).current_level),
                self.holes.depth == old(self).holes.depth,
                self.current_level == old(self).current_level,
                self.types == old(self).types,
                self.current_id == sat_add(old(self).current_id as nat, k as nat),
            decreases scheme.binds@.len() - k,
        {
            let ghost before = self.holes.cells@;
            let hole = self.new_hole_type();
            substitutions.push(hole);
            proof {
                assert(self.holes.cells@.subrange(0, n0 as int) =~= before.subrange(0, n0 as int));
                assert forall|j: int| n0 <= j < self.holes.len() implies empty_at(#[trigger] self.holes.cells@[j], old(self).current_level) by {
                    if j < self.holes.len() - 1 {
                        assert(self.holes.cells@[j] == self.holes.cells@.drop_last()[j]);
                    }
                }
            }
            k = k + 1;
        }
        proof {
            assert forall|j: int| 0 <= j < substitutions@.len() implies #[trigger] views(substitutions@)[j] == fresh(n0, scheme.binds@.len())[j] by {
                assert(substitutions@[j]@ == Mono::Hole((n0 + j) as nat));
            }
            assert(views(substitutions@) =~= fresh(n0, scheme.binds@.len()));
            lemma_valid_grow(scheme.t@, n0, self.holes.len());
            let s0 = old(self).holes.cells@;
            let s1 = self.holes.cells@;
            lemma_valid_bounded(scheme.t@, s0, self.holes.depth@);
            assert(extends(s0, s1)) by {
                assert forall|i: int| 0 <= i < s0.len() && is_filled(#[trigger] s0[i]) implies s1[i]
                    == s0[i] by {
                    assert(s1.subrange(0, n0 as int)[i] == s1[i]);
                }
            }
            lemma_extend_resolve(scheme.t@, s0, self.holes.depth@, s1, self.holes.depth@);
            lemma_resolved_fixed_in(scheme.t@, s0, s1, self.holes.depth@, self.holes.depth@);
            let m = old(self).holes.resolved(scheme.t@);
            assert forall|h: nat| #[trigger] mentions(m, h) implies h < self.holes.len() by {
                assert(mentions(resolve(scheme.t@, s0, self.holes.depth@), h));
            }
            lemma_substitute_valid(m, views(substitutions@), self.holes.len());
        }
        scheme.t.instantiate(&substitutions, &self.holes)
    }

    /// Turns a monotype into a scheme at the current level: each empty hole
    /// born deeper than the current level becomes the next quantified
    /// position, in a walk that visits domains before codomains; holes of the
    /// current level or outer ones stay free.
    pub fn generalize(&mut self, t: Type) -> (r: Scheme)
        requires
            old(self).wf(),
            valid(t@, old(self).holes.len()),
        ensures
            final(self).wf(),
            r.t == t,
            generalized(old(self).holes, final(self).holes, old(self).current_level, t@, r),
            final(self).current_id == sat_add(old(self).current_id as nat, r.binds@.len()),
            final(self).current_level == old(self).current_level,
            final(self).types == old(self).types,
    {
        let mut counter: u32 = 0;
        let ghost base = self.holes.cells@;
        let ghost base_depth = self.holes.depth@;
        proof {
            let e = Seq::<nat>::empty();
            assert(e.no_duplicates());
            assert forall|i: nat| i < base.len() && !e.contains(i) implies #[trigger] base[i as int]
                == base[i as int] by {}
            assert(marked(base, base, e, 0, self.current_level as nat));
        }
        generalize_type(
            &t,
            self.current_level,
            &mut counter,
            &mut self.holes,
            Ghost(base),
            Ghost(base_depth),
            Ghost(Seq::empty()),
            Ghost(0),
        );
        let ghost h1 = self.holes;
        let mut binds: Vec<String> = Vec::new();
        let mut k: u32 = 0;
        let ghost id1 = self.current_id;
        while k < counter
            invariant
                k <= counter,
                binds@.len() == k,
                self.holes == h1,
                self.current_id == sat_add(id1 as nat, k as nat),
                self.current_level == old(self).current_level,
                self.types == old(self).types,
            decreases counter - k,
        {
            binds.push(self.new_name());
            k = k + 1;
        }
        Scheme::new(binds, t)
    }

    /// Infers the type of `expr`, which is handed back with it.
    ///
    /// A variable declared with a type (in an annotated lambda or let) is
    /// bound to the declared type, generalized at the current level. For an
    /// annotated let the value's type has first been unified with the
    /// declared one, so both stand for the same type and the declared one is
    /// what the program states.
    pub fn infer(&mut self, expr: Expr) -> (r: Result<(Expr, Type), TypeError>)
        requires
            old(self).wf(),
            annots_valid(*expr, old(self).holes.len()),
            old(self).current_level + height(*expr) <= u32::MAX,
        ensures
            infers(
                *old(self),
                *expr,
                *final(self),
                match r {
                    Ok(p) => Ok(p.1),
                    Err(e) => Err(e),
                },
            ),
            r matches Ok(p) ==> p.0 == expr,
    {
        match self.infer_expr(&expr) {
            Ok(t) => Ok((expr, t)),
            Err(e) => Err(e),
        }
    }

    fn infer_expr(&mut self, e: &ExprKind) -> (r: Result<Type, TypeError>)
        requires
            old(self).wf(),
            annots_valid(*e, old(self).holes.len()),
            old(self).current_level + height(*e) <= u32::MAX,
        ensures
            infers(*old(self), *e, *final(self), r),
        decreases e,
    {
        let ghost c0 = *self;
        let ghost no_unify: Result<(), TypeError> = Ok(());
        let ghost n0 = self.holes.len();
        let ghost env0 = self.types@;
        match e {
            ExprKind::Lit { val } => {
                let t = match val {
                    Lit::Int(_) => integer(),
                    Lit::Bool(_) => bool(),
                    Lit::String(_) => string(),
                };
                Ok(t)
            },
            ExprKind::Var { name } => {
                match lookup_scheme(&self.types, name) {
                    Some(i) => {
                        let scheme = self.types[i].1.duplicate();
                        let t = self.instantiate(scheme);
                        proof {
                            lemma_env_grow(env0, n0, self.holes.len());
                            assert(extends(c0.holes.cells@, self.holes.cells@)) by {
                                assert forall|j: int| 0 <= j < n0 && is_filled(#[trigger] c0.holes.cells@[j]) implies self.holes.cells@[j] == c0.holes.cells@[j] by {
                                    assert(self.holes.cells@.subrange(0, n0 as int)[j] == self.holes.cells@[j]);
                                }
                            }
                        }
                        Ok(t)
                    },
                    None => Err(TypeError::UnboundVariable(name.clone())),
                }
            },
            ExprKind::Lam { var, body } => {
                let h = self.holes.cells.len();
                let hole = self.new_hole_type();
                let ghost a = *self;
                self.types.push((var.clone(), Scheme::new(Vec::new(), hole)));
                let ghost c = *self;
                proof {
                    lemma_annots_grow(**body, n0, self.holes.len());
                    let n1 = self.holes.len();
                    assert forall|i: int| 0 <= i < self.types@.len() implies valid(#[trigger] self.types@[i].1.t@, n1) by {
                        if i < env0.len() {
                            assert(self.types@[i] == env0[i]);
                        }
                    }
                    assert(self.types@.drop_last() =~= a.types@);
                    lemma_extends_push(c0.holes.cells@, a.holes.cells@);
                }
                let res = self.infer_expr(body);
                let ghost b = *self;
                self.types.pop();
                proof {
                    assert(self.types@ =~= env0);
                    lemma_env_grow(env0, n0, self.holes.len());
                    lemma_extends_trans(c0.holes.cells@, c.holes.cells@, self.holes.cells@);
                }
                let out = match res {
                    Ok(body_t) => {
                        let ghost bv = body_t@;
                        let dom = Box::new(TypeKind::Hole(Hole(h)));
                        assert(dom@ == Mono::Hole(h as nat));
                        assert(c.holes.len() == h + 1);
                        assert(valid(dom@, self.holes.len()));
                        let out = Box::new(TypeKind::Arrow(dom, body_t));
                        assert(out@ == Mono::Arrow(Box::new(Mono::Hole(h as nat)), Box::new(bv)));
                        Ok(out)
                    },
                    Err(err) => Err(err),
                };
                proof {
                    lemma_step_infers(c0, *e, *self, out, a, b, c, c, c0.holes, res, res, no_unify);
                }
                out
            },
            ExprKind::LamTyp { annot, body } => {
                let scheme = self.generalize(Box::new(annot.t.duplicate()));
                let ghost a = *self;
                self.types.push((annot.var.clone(), scheme));
                let ghost c = *self;
                proof {
                    let n1 = self.holes.len();
                    assert forall|i: int| 0 <= i < self.types@.len() implies valid(#[trigger] self.types@[i].1.t@, n1) by {
                        if i < env0.len() {
                            assert(self.types@[i] == env0[i]);
                        }
                    }
                    assert(self.types@.drop_last() =~= env0);
                }
                let res = self.infer_expr(body);
                let ghost b = *self;
                self.types.pop();
                proof {
                    assert(self.types@ =~= env0);
                    lemma_env_grow(env0, n0, self.holes.len());
                    lemma_extends_trans(c0.holes.cells@, c.holes.cells@, self.holes.cells@);
                    lemma_valid_grow(annot.t@, n0, self.holes.len());
                }
                let out = match res {
                    Ok(body_t) => Ok(Box::new(TypeKind::Arrow(Box::new(annot.t.duplicate()), body_t))),
                    Err(err) => Err(err),
                };
                proof {
                    lemma_step_infers(c0, *e, *self, out, a, b, c, c, c0.holes, res, res, no_unify);
                }
                out
            },
            ExprKind::App { fun, arg } => {
                let rf = self.infer_expr(fun);
                let ghost a = *self;
                let f = match rf {
                    Ok(t) => t,
                    Err(err) => {
                        let out: Result<Type, TypeError> = Err(err);
                        proof {
                            lemma_step_infers(c0, *e, *self, out, a, a, a, a, c0.holes, rf, rf, no_unify);
                        }
                        return out;
                    },
                };
                proof {
                    lemma_annots_grow(**arg, n0, self.holes.len());
                }
                let ra = self.infer_expr(arg);
                let ghost b = *self;
                let x = match ra {
                    Ok(t) => t,
                    Err(err) => {
                        let out: Result<Type, TypeError> = Err(err);
                        proof {
                            lemma_extends_trans(c0.holes.cells@, a.holes.cells@, self.holes.cells@);
                            lemma_step_infers(c0, *e, *self, out, a, b, b, b, c0.holes, rf, ra, no_unify);
                        }
                        return out;
                    },
                };
                let h = self.holes.cells.len();
                let result = self.new_hole_type();
                let ghost av = x@;
                let ghost rv = result@;
                let arrow = TypeKind::Arrow(x, result);
                assert(arrow@ == Mono::Arrow(Box::new(av), Box::new(rv)));
                let ghost c = *self;
                proof {
                    lemma_valid_grow(f@, a.holes.len(), self.holes.len());
                    lemma_valid_grow(av, b.holes.len(), self.holes.len());
                    lemma_extends_trans(c0.holes.cells@, a.holes.cells@, b.holes.cells@);
                    lemma_extends_push(b.holes.cells@, c.holes.cells@);
                    lemma_extends_trans(c0.holes.cells@, b.holes.cells@, c.holes.cells@);
                }
                assert(valid(rv, self.holes.len()));
                assert(valid(arrow@, self.holes.len()));
                let unified_r = unify(&f, &arrow, &mut self.holes);
                proof {
                    lemma_env_grow(env0, c.holes.len(), self.holes.len());
                    lemma_valid_grow(Mono::Hole(h as nat), c.holes.len(), self.holes.len());
                    lemma_extends_trans(c0.holes.cells@, c.holes.cells@, self.holes.cells@);
                }
                let out = match unified_r {
                    Ok(()) => Ok(Box::new(TypeKind::Hole(Hole(h)))),
                    Err(err) => Err(err),
                };
                proof {
                    lemma_step_infers(c0, *e, *self, out, a, b, c, c, c0.holes, rf, ra, unified_r);
                }
                out
            },
            ExprKind::Let { binding, val, next } => {
                self.enter_level();
                let ghost a = *self;
                let v = self.infer_expr(val);
                let ghost b = *self;
                self.exit_level();
                let vt = match v {
                    Ok(t) => t,
                    Err(err) => {
                        let out: Result<Type, TypeError> = Err(err);
                        proof {
                            lemma_step_infers(c0, *e, *self, out, a, b, b, b, c0.holes, v, v, no_unify);
                        }
                        return out;
                    },
                };
                let scheme = self.generalize(vt);
                self.types.push((binding.clone(), scheme));
                let ghost c = *self;
                proof {
                    lemma_annots_grow(**next, n0, self.holes.len());
                    lemma_extends_trans(c0.holes.cells@, b.holes.cells@, self.holes.cells@);
                    let n1 = self.holes.len();
                    assert forall|i: int| 0 <= i < self.types@.len() implies valid(#[trigger] self.types@[i].1.t@, n1) by {
                        if i < env0.len() {
                            assert(self.types@[i] == env0[i]);
                        }
                    }
                    assert(self.types@.drop_last() =~= env0);
                }
                let res = self.infer_expr(next);
                let ghost f = *self;
                self.types.pop();
                proof {
                    assert(self.types@ =~= env0);
                    lemma_env_grow(env0, n0, self.holes.len());
                    lemma_extends_trans(c0.holes.cells@, c.holes.cells@, self.holes.cells@);
                    lemma_step_infers(c0, *e, *self, res, a, b, c, f, c0.holes, v, v, no_unify);
                }
                res
            },
            ExprKind::LetTyp { annot, val, next } => {
                let v = self.infer_expr(val);
                let ghost a = *self;
                let vt = match v {
                    Ok(t) => t,
                    Err(err) => {
                        let out: Result<Type, TypeError> = Err(err);
                        proof {
                            lemma_step_infers(c0, *e, *self, out, a, a, a, a, c0.holes, v, v, no_unify);
                        }
                        return out;
                    },
                };
                proof {
                    lemma_valid_grow(annot.t@, n0, self.holes.len());
                }
                let u = unify(&vt, &annot.t, &mut self.holes);
                let ghost d = self.holes;
                proof {
                    lemma_env_grow(env0, a.holes.len(), self.holes.len());
                    lemma_valid_grow(annot.t@, n0, self.holes.len());
                    lemma_extends_trans(c0.holes.cells@, a.holes.cells@, self.holes.cells@);
                }
                match u {
                    Ok(()) => {},
                    Err(err) => {
                        let out: Result<Type, TypeError> = Err(err);
                        proof {
                            lemma_step_infers(c0, *e, *self, out, a, a, a, a, d, v, v, u);
                        }
                        return out;
                    },
                }
                let scheme = self.generalize(Box::new(annot.t.duplicate()));
                self.types.push((annot.var.clone(), scheme));
                let ghost c = *self;
                proof {
                    lemma_annots_grow(**next, n0, self.holes.len());
                    lemma_extends_trans(c0.holes.cells@, d.cells@, self.holes.cells@);
                    let n1 = self.holes.len();
                    assert forall|i: int| 0 <= i < self.types@.len() implies valid(#[trigger] self.types@[i].1.t@, n1) by {
                        if i < env0.len() {
                            assert(self.types@[i] == env0[i]);
                        }
                    }
                    assert(self.types@.drop_last() =~= env0);
                }
                let res = self.infer_expr(next);
                let ghost f = *self;
                self.types.pop();
                proof {
                    assert(self.types@ =~= env0);
                    lemma_env_grow(env0, n0, self.holes.len());
                    lemma_extends_trans(c0.holes.cells@, c.holes.cells@, self.holes.cells@);
                    lemma_step_infers(c0, *e, *self, res, a, a, c, f, d, v, v, u);
                }
                res
            },
        }
    }
}

/// The type of a literal.
pub open spec fn lit_type(val: Lit) -> Mono {
    match val {
        Lit::Int(_) => Mono::Var("Int"@),
        Lit::Bool(_) => Mono::Var("Bool"@),
        Lit::String(_) => Mono::Var("String"@),
    }
}

/// `a + n`, stopping at the largest `u32`.
pub open spec fn sat_add(a: nat, n: nat) -> nat {
    if a + n < u32::MAX {
        a + n
    } else {
        u32::MAX as nat
    }
}

/// `new` is `old` with one more empty hole, born at the current level.
pub open spec fn hole_made(old: Context, new: Context) -> bool {
    &&& new.wf()
    &&& new.holes.cells@.len() == old.holes.len() + 1
    &&& new.holes.cells@.drop_last() == old.holes.cells@
    &&& empty_at(new.holes.cells@.last(), old.current_level)
    &&& new.holes.depth == old.holes.depth
    &&& new.current_level == old.current_level
    &&& new.types@ == old.types@
    &&& new.current_id == sat_add(old.current_id as nat, 1)
}

/// What instantiating a scheme with body `t` and `n` quantified positions in
/// `old` gives: the monotype `r` and the context `new`.
pub open spec fn instantiated(old: Context, new: Context, t: Mono, n: nat, r: Mono) -> bool {
    &&& new.wf()
    &&& r == substitute(old.holes.resolved(t), fresh(old.holes.len(), n))
    &&& valid(r, new.holes.len())
    &&& new.holes.len() == old.holes.len() + n
    &&& new.holes.cells@.subrange(0, old.holes.len() as int) == old.holes.cells@
    &&& forall|j: int|
        old.holes.len() <= j < new.holes.len() ==> empty_at(
            #[trigger] new.holes.cells@[j],
            old.current_level,
        )
    &&& new.holes.depth == old.holes.depth
    &&& new.current_level == old.current_level
    &&& new.types@ == old.types@
    &&& new.current_id == sat_add(old.current_id as nat, n)
}

/// What generalizing `t` at `level` does to the arena `old`, giving `new`
/// and the scheme `s`.
pub open spec fn generalized(old: Holes, new: Holes, level: u32, t: Mono, s: Scheme) -> bool {
    &&& new.wf()
    &&& s.t@ == t
    &&& extends(old.cells@, new.cells@)
    &&& generalized_cells(old.cells@, new.cells@, level as nat, 0, s.binds@.len())
    &&& s.binds@.len() <= n_empty(old.cells@)
    &&& s.binds@.len() < u32::MAX ==> marked(
        old.cells@,
        new.cells@,
        gen_order(old.resolved(t), old.cells@, level as nat, Seq::empty()),
        0,
        level as nat,
    ) && s.binds@.len() == gen_order(old.resolved(t), old.cells@, level as nat, Seq::empty()).len()
    &&& s.binds@.len() < u32::MAX ==> none_eligible(t, new.cells@, new.depth@, level as nat)
}

/// `env2` is `env` with one more binding, of `name`.
pub open spec fn pushed(env: Seq<(String, Scheme)>, env2: Seq<(String, Scheme)>, name: Seq<char>) -> bool {
    &&& env2.len() == env.len() + 1
    &&& env2.drop_last() == env
    &&& env2.last().0@ == name
}

/// What holds of every inference from `old` to `new` with result `r`.
pub open spec fn frame(old: Context, new: Context, r: Result<Type, TypeError>) -> bool {
    &&& new.wf()
    &&& new.types@ == old.types@
    &&& new.current_level == old.current_level
    &&& extends(old.holes.cells@, new.holes.cells@)
    &&& new.current_id >= old.current_id
    &&& r is Ok ==> valid(r->Ok_0@, new.holes.len())
}

/// Inferring `e` in the context `old` gives `r` and leaves the context `new`.
pub open spec fn infers(old: Context, e: ExprKind, new: Context, r: Result<Type, TypeError>) -> bool
    decreases e, 1nat,
{
    &&& frame(old, new, r)
    &&& match e {
        // a literal has its built-in type; nothing changes
        ExprKind::Lit { val } => r is Ok && r->Ok_0@ == lit_type(val) && same_holes(old.holes, new.holes)
            && new.current_id == old.current_id,
        // a variable is unbound, and nothing changes, or its scheme is instantiated
        ExprKind::Var { name } => match lookup(old.types@, name@) {
            None => r is Err && r->Err_0 is UnboundVariable && r->Err_0->UnboundVariable_0@
                == name@ && same_holes(old.holes, new.holes) && new.current_id == old.current_id,
            Some(i) => r is Ok && instantiated(
                old,
                new,
                old.types@[i].1.t@,
                old.types@[i].1.binds@.len(),
                r->Ok_0@,
            ),
        },
        _ => exists|
            a: Context,
            b: Context,
            c: Context,
            f: Context,
            d: Holes,
            x: Result<Type, TypeError>,
            y: Result<Type, TypeError>,
            u: Result<(), TypeError>,
        | #[trigger] witnesses(a, b, c, f, d, x, y, u) && infer_step(old, e, new, r, a, b, c, f, d, x, y, u),
    }
}

/// Names the contexts and results met while inferring a compound expression.
pub open spec fn witnesses(
    a: Context,
    b: Context,
    c: Context,
    f: Context,
    d: Holes,
    x: Result<Type, TypeError>,
    y: Result<Type, TypeError>,
    u: Result<(), TypeError>,
) -> bool {
    true
}

/// One step of inference on a compound expression, through the contexts
/// `a`, `b`, `c`, `f` and the arena `d` met on the way, with the results `x`
/// and `y` of inferring the parts and the result `u` of a unification.
pub open spec fn infer_step(
    old: Context,
    e: ExprKind,
    new: Context,
    r: Result<Type, TypeError>,
    a: Context,
    b: Context,
    c: Context,
    f: Context,
    d: Holes,
    x: Result<Type, TypeError>,
    y: Result<Type, TypeError>,
    u: Result<(), TypeError>,
) -> bool
    decreases e, 0nat,
{
    match e {
        // a new hole for the parameter, bound without quantifiers; then the body
        ExprKind::Lam { var, body } => {
            &&& hole_made(old, a)
            &&& pushed(a.types@, c.types@, var@)
            &&& c.types@.last().1.binds@.len() == 0
            &&& c.types@.last().1.t@ == Mono::Hole(old.holes.len())
            &&& same_holes(c.holes, a.holes)
            &&& c.current_level == old.current_level
            &&& c.current_id == a.current_id
            &&& infers(c, *body, b, x)
            &&& same_holes(new.holes, b.holes)
            &&& new.current_id == b.current_id
            &&& (r is Ok <==> x is Ok)
            &&& r is Ok ==> r->Ok_0@ == Mono::Arrow(
                Box::new(Mono::Hole(old.holes.len())),
                Box::new(x->Ok_0@),
            )
            &&& r is Err ==> r == x
        },
        // the declared type, generalized at the current level; then the body
        ExprKind::LamTyp { annot, body } => {
            &&& generalized(old.holes, a.holes, old.current_level, annot.t@, c.types@.last().1)
            &&& a.current_id >= old.current_id
            &&& pushed(old.types@, c.types@, annot.var@)
            &&& same_holes(c.holes, a.holes)
            &&& c.current_level == old.current_level
            &&& c.current_id == a.current_id
            &&& infers(c, *body, b, x)
            &&& same_holes(new.holes, b.holes)
            &&& new.current_id == b.current_id
            &&& (r is Ok <==> x is Ok)
            &&& r is Ok ==> r->Ok_0@ == Mono::Arrow(Box::new(annot.t@), Box::new(x->Ok_0@))
            &&& r is Err ==> r == x
        },
        // the function, then the argument, then a new hole for the result and
        // a unification of the function's type with argument -> result
        ExprKind::App { fun, arg } => {
            &&& infers(old, *fun, a, x)
            &&& x is Err ==> r == x && same_holes(new.holes, a.holes) && new.current_id
                == a.current_id
            &&& x is Ok ==> {
                &&& infers(a, *arg, b, y)
                &&& y is Err ==> r == y && same_holes(new.holes, b.holes) && new.current_id
                    == b.current_id
                &&& y is Ok ==> {
                    &&& hole_made(b, c)
                    &&& unified(
                        c.holes,
                        new.holes,
                        x->Ok_0@,
                        Mono::Arrow(Box::new(y->Ok_0@), Box::new(Mono::Hole(b.holes.len()))),
                        u,
                    )
                    &&& new.current_id == c.current_id
                    &&& (r is Ok <==> u is Ok)
                    &&& r is Ok ==> r->Ok_0@ == Mono::Hole(b.holes.len())
                    &&& r is Err ==> u is Err && r->Err_0 == u->Err_0
                }
            }
        },
        // the value one level deeper; its type generalized at the current
        // level and bound; then the continuation, whose result is the result
        ExprKind::Let { binding, val, next } => {
            &&& same_holes(a.holes, old.holes)
            &&& a.types@ == old.types@
            &&& a.current_level == old.current_level + 1
            &&& a.current_id == old.current_id
            &&& infers(a, *val, b, x)
            &&& x is Err ==> r == x && same_holes(new.holes, b.holes) && new.current_id
                == b.current_id
            &&& x is Ok ==> {
                &&& generalized(b.holes, c.holes, old.current_level, x->Ok_0@, c.types@.last().1)
                &&& c.current_id >= b.current_id
                &&& pushed(old.types@, c.types@, binding@)
                &&& c.current_level == old.current_level
                &&& infers(c, *next, f, r)
                &&& same_holes(new.holes, f.holes)
                &&& new.current_id == f.current_id
            }
        },
        // the value; its type unified with the declared one; the declared type
        // generalized at the current level and bound; then the continuation
        ExprKind::LetTyp { annot, val, next } => {
            &&& infers(old, *val, a, x)
            &&& x is Err ==> r == x && same_holes(new.holes, a.holes) && new.current_id
                == a.current_id
            &&& x is Ok ==> {
                &&& unified(a.holes, d, x->Ok_0@, annot.t@, u)
                &&& u is Err ==> r is Err && r->Err_0 == u->Err_0 && same_holes(new.holes, d)
                    && new.current_id == a.current_id
                &&& u is Ok ==> {
                    &&& generalized(d, c.holes, old.current_level, annot.t@, c.types@.last().1)
                    &&& c.current_id >= a.current_id
                    &&& pushed(old.types@, c.types@, annot.var@)
                    &&& c.current_level == old.current_level
                    &&& infers(c, *next, f, r)
                    &&& same_holes(new.holes, f.holes)
                    &&& new.current_id == f.current_id
                }
            }
        },
        _ => false,
    }
}

/// A step with its frame is an inference of a compound expression.
pub proof fn lemma_step_infers(
    old: Context,
    e: ExprKind,
    new: Context,
    r: Result<Type, TypeError>,
    a: Context,
    b: Context,
    c: Context,
    f: Context,
    d: Holes,
    x: Result<Type, TypeError>,
    y: Result<Type, TypeError>,
    u: Result<(), TypeError>,
)
    requires
        !(e is Lit),
        !(e is Var),
        frame(old, new, r),
        infer_step(old, e, new, r, a, b, c, f, d, x, y, u),
    ensures
        infers(old, e, new, r),
{
    assert(witnesses(a, b, c, f, d, x, y, u));
}

pub proof fn lemma_extends_push(a: Seq<HoleKind>, b: Seq<HoleKind>)
    requires
        a.len() < b.len(),
        b.drop_last() == a,
    ensures
        extends(a, b),
{
    assert forall|i: int| 0 <= i < a.len() && is_filled(#[trigger] a[i]) implies b[i] == a[i] by {
        assert(b.drop_last()[i] == b[i]);
    }
}

pub proof fn lemma_extends_trans(a: Seq<HoleKind>, b: Seq<HoleKind>, c: Seq<HoleKind>)
    requires
        extends(a, b),
        extends(b, c),
    ensures
        extends(a, c),
{
    assert forall|i: int| 0 <= i < a.len() && is_filled(#[trigger] a[i]) implies c[i] == a[i] by {
        assert(b[i] == a[i]);
    }
}

/// Two instantiations of one scheme, the second made after the first, never
/// share a hole: each makes its own new holes, and the second one's come
/// after all of the first one's.
pub proof fn lemma_instantiations_fresh(before: Context, between: Context, scheme: Scheme)
    requires
        between.holes.len() == before.holes.len() + scheme.binds@.len(),
    ensures
        forall|i: int, j: int|
            0 <= i < scheme.binds@.len() && 0 <= j < scheme.binds@.len() ==> #[trigger] fresh(
                before.holes.len(),
                scheme.binds@.len(),
            )[i] != #[trigger] fresh(between.holes.len(), scheme.binds@.len())[j],
{
}

impl Default for Context {
    fn default() -> (r: Context)
        ensures
            r.wf(),
            r.types@.len() == 0,
            r.current_level == 0,
            r.current_id == 0,
            r.holes.len() == 0,
    {
        Context::new()
    }
}

} // verus!
