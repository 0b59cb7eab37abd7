use vstd::prelude::*;

verus! {

/// The mathematical model of a monotype: names are character sequences and a
/// hole is the index of its cell in the arena.
pub enum Mono {
    Var(Seq<char>),
    Hole(nat),
    Gen(nat),
    Arrow(Box<Mono>, Box<Mono>),
}

/// Represents a monotype.
#[derive(Debug)]
pub enum TypeKind {
    Var(String),
    Hole(Hole),
    Generalized(u32),
    Arrow(Type, Type),
}

/// A type lives on the heap, since [TypeKind] is recursive.
pub type Type = Box<TypeKind>;

/// A reference to a unification cell: the index of the cell in [Holes].
/// Two holes are the same exactly when they name the same cell.
#[derive(Clone, Copy, Debug, PartialEq, Eq, Structural)]
pub struct Hole(pub usize);

/// The content of a unification cell.
#[derive(Debug)]
pub enum HoleKind {
    Filled(Type),
    Empty(String, u32),
}

/// The arena of unification cells that one inference run shares.
///
/// `depth` bounds the number of `Filled` hops that any chain of cells can
/// take; its existence is what rules out cycles among filled cells.
pub struct Holes {
    pub cells: Vec<HoleKind>,
    pub depth: Ghost<nat>,
}

/// Represents a polymorphic type, such as `forall a. a -> a`: a body and
/// one name for each quantified position.
#[derive(Debug)]
pub struct Scheme {
    pub binds: Vec<String>,
    pub t: Type,
}

pub open spec fn view_type(t: TypeKind) -> Mono
    decreases t,
{
    match t {
        TypeKind::Var(s) => Mono::Var(s@),
        TypeKind::Hole(h) => Mono::Hole(h.0 as nat),
        TypeKind::Generalized(n) => Mono::Gen(n as nat),
        TypeKind::Arrow(a, b) => Mono::Arrow(Box::new(view_type(*a)), Box::new(view_type(*b))),
    }
}

impl View for TypeKind {
    type V = Mono;

    open spec fn view(&self) -> Mono {
        view_type(*self)
    }
}

/// Whether a cell has been solved.
pub open spec fn is_filled(c: HoleKind) -> bool {
    c is Filled
}

/// What a filled cell holds.
pub open spec fn content(c: HoleKind) -> Mono {
    match c {
        HoleKind::Filled(t) => view_type(*t),
        HoleKind::Empty(_, _) => Mono::Gen(0),
    }
}

/// The level at which an empty cell was born.
pub open spec fn birth_level(c: HoleKind) -> nat {
    match c {
        HoleKind::Filled(_) => 0,
        HoleKind::Empty(_, l) => l as nat,
    }
}

/// Every hole of `m` names a cell of an arena of `n` cells.
pub open spec fn valid(m: Mono, n: nat) -> bool
    decreases m,
{
    match m {
        Mono::Hole(i) => i < n,
        Mono::Arrow(a, b) => valid(*a, n) && valid(*b, n),
        _ => true,
    }
}

/// `m` mentions hole `h` itself (no cell is looked into).
pub open spec fn mentions(m: Mono, h: nat) -> bool
    decreases m,
{
    match m {
        Mono::Hole(i) => i == h,
        Mono::Arrow(a, b) => mentions(*a, h) || mentions(*b, h),
        _ => false,
    }
}

/// Every chain of filled cells reachable from `m` takes fewer than `fuel`
/// hops, and every hole on the way names a cell of `cells`.
pub open spec fn bounded(m: Mono, cells: Seq<HoleKind>, fuel: nat) -> bool
    decreases fuel, m,
{
    match m {
        Mono::Hole(i) => i < cells.len() && (is_filled(cells[i as int]) ==> (fuel > 0
            && bounded(content(cells[i as int]), cells, (fuel - 1) as nat))),
        Mono::Arrow(a, b) => bounded(*a, cells, fuel) && bounded(*b, cells, fuel),
        _ => true,
    }
}

/// `m` with every filled cell replaced by what it holds, recursively.
pub open spec fn resolve(m: Mono, cells: Seq<HoleKind>, fuel: nat) -> Mono
    decreases fuel, m,
{
    match m {
        Mono::Hole(i) => if i < cells.len() && is_filled(cells[i as int]) && fuel > 0 {
            resolve(content(cells[i as int]), cells, (fuel - 1) as nat)
        } else {
            m
        },
        Mono::Arrow(a, b) => Mono::Arrow(
            Box::new(resolve(*a, cells, fuel)),
            Box::new(resolve(*b, cells, fuel)),
        ),
        _ => m,
    }
}

/// The number of nodes and filled hops met while resolving `m`.
pub open spec fn rsize(m: Mono, cells: Seq<HoleKind>, fuel: nat) -> nat
    decreases fuel, m,
{
    match m {
        Mono::Hole(i) => if i < cells.len() && is_filled(cells[i as int]) && fuel > 0 {
            1 + rsize(content(cells[i as int]), cells, (fuel - 1) as nat)
        } else {
            1
        },
        Mono::Arrow(a, b) => 1 + rsize(*a, cells, fuel) + rsize(*b, cells, fuel),
        _ => 1,
    }
}

/// Hole `h` is met while walking `m`, through arrows and filled cells.
pub open spec fn occurs(h: nat, m: Mono, cells: Seq<HoleKind>, fuel: nat) -> bool
    decreases fuel, m,
{
    match m {
        Mono::Hole(i) => i == h || (i < cells.len() && is_filled(cells[i as int]) && fuel > 0
            && occurs(h, content(cells[i as int]), cells, (fuel - 1) as nat)),
        Mono::Arrow(a, b) => occurs(h, *a, cells, fuel) || occurs(h, *b, cells, fuel),
        _ => false,
    }
}

/// `m` holds no hole at all.
pub open spec fn ground(m: Mono) -> bool
    decreases m,
{
    match m {
        Mono::Hole(_) => false,
        Mono::Arrow(a, b) => ground(*a) && ground(*b),
        _ => true,
    }
}

/// Every `Generalized(i)` in `m` is replaced by `subs[i]`, where `i` is in range.
pub open spec fn substitute(m: Mono, subs: Seq<Mono>) -> Mono
    decreases m,
{
    match m {
        Mono::Gen(i) => if i < subs.len() {
            subs[i as int]
        } else {
            m
        },
        Mono::Arrow(a, b) => Mono::Arrow(
            Box::new(substitute(*a, subs)),
            Box::new(substitute(*b, subs)),
        ),
        _ => m,
    }
}

/// No chain of filled cells is longer than `depth` hops.
pub open spec fn acyclic(cells: Seq<HoleKind>, depth: nat) -> bool {
    forall|i: nat| i < cells.len() ==> #[trigger] bounded(Mono::Hole(i), cells, depth)
}

/// `new` is `old` with possibly more cells and some empty cells filled.
pub open spec fn extends(old: Seq<HoleKind>, new: Seq<HoleKind>) -> bool {
    &&& old.len() <= new.len()
    &&& forall|i: int| 0 <= i < old.len() && is_filled(#[trigger] old[i]) ==> new[i] == old[i]
}

/// The number of empty cells.
pub open spec fn n_empty(cells: Seq<HoleKind>) -> nat
    decreases cells.len(),
{
    if cells.len() == 0 {
        0
    } else {
        n_empty(cells.drop_last()) + if is_filled(cells.last()) {
            0nat
        } else {
            1nat
        }
    }
}

impl Holes {
    pub open spec fn wf(&self) -> bool {
        acyclic(self.cells@, self.depth@)
    }

    pub open spec fn len(&self) -> nat {
        self.cells@.len()
    }

    /// What `m` stands for in this arena.
    pub open spec fn resolved(&self, m: Mono) -> Mono {
        resolve(m, self.cells@, self.depth@)
    }
}

pub proof fn lemma_valid_bounded(m: Mono, cells: Seq<HoleKind>, d: nat)
    requires
        acyclic(cells, d),
        valid(m, cells.len()),
    ensures
        bounded(m, cells, d),
    decreases m,
{
    match m {
        Mono::Hole(i) => {
            assert(bounded(Mono::Hole(i), cells, d));
        },
        Mono::Arrow(a, b) => {
            lemma_valid_bounded(*a, cells, d);
            lemma_valid_bounded(*b, cells, d);
        },
        _ => {},
    }
}

pub proof fn lemma_valid_grow(m: Mono, n: nat, k: nat)
    requires
        valid(m, n),
        n <= k,
    ensures
        valid(m, k),
    decreases m,
{
    if let Mono::Arrow(a, b) = m {
        lemma_valid_grow(*a, n, k);
        lemma_valid_grow(*b, n, k);
    }
}

/// There are no more empty cells than cells.
pub proof fn lemma_n_empty_len(cells: Seq<HoleKind>)
    ensures
        n_empty(cells) <= cells.len(),
    decreases cells.len(),
{
    if cells.len() > 0 {
        lemma_n_empty_len(cells.drop_last());
    }
}

/// More fuel changes nothing once `m` is bounded.
pub proof fn lemma_fuel(m: Mono, cells: Seq<HoleKind>, f: nat, g: nat, h: nat)
    requires
        bounded(m, cells, f),
        f <= g,
    ensures
        bounded(m, cells, g),
        resolve(m, cells, f) == resolve(m, cells, g),
        rsize(m, cells, f) == rsize(m, cells, g),
        occurs(h, m, cells, f) == occurs(h, m, cells, g),
        valid(m, cells.len()),
    decreases f, m,
{
    match m {
        Mono::Hole(i) => {
            if is_filled(cells[i as int]) {
                lemma_fuel(content(cells[i as int]), cells, (f - 1) as nat, (g - 1) as nat, h);
            }
        },
        Mono::Arrow(a, b) => {
            lemma_fuel(*a, cells, f, g, h);
            lemma_fuel(*b, cells, f, g, h);
        },
        _ => {},
    }
}

/// Appending a cell changes nothing for a bounded type.
pub proof fn lemma_push(m: Mono, cells: Seq<HoleKind>, f: nat, c: HoleKind, h: nat)
    requires
        bounded(m, cells, f),
    ensures
        bounded(m, cells.push(c), f),
        resolve(m, cells, f) == resolve(m, cells.push(c), f),
        rsize(m, cells, f) == rsize(m, cells.push(c), f),
        occurs(h, m, cells, f) == occurs(h, m, cells.push(c), f),
    decreases f, m,
{
    let s = cells.push(c);
    match m {
        Mono::Hole(i) => {
            assert(s[i as int] == cells[i as int]);
            if is_filled(cells[i as int]) {
                lemma_push(content(cells[i as int]), cells, (f - 1) as nat, c, h);
            }
        },
        Mono::Arrow(a, b) => {
            lemma_push(*a, cells, f, c, h);
            lemma_push(*b, cells, f, c, h);
        },
        _ => {},
    }
}

/// Appending an empty cell keeps the arena acyclic.
pub proof fn lemma_push_acyclic(cells: Seq<HoleKind>, d: nat, c: HoleKind)
    requires
        acyclic(cells, d),
        !is_filled(c),
    ensures
        acyclic(cells.push(c), d),
{
    let s = cells.push(c);
    assert forall|i: nat| i < s.len() implies #[trigger] bounded(Mono::Hole(i), s, d) by {
        if i < cells.len() {
            lemma_push(Mono::Hole(i), cells, d, c, 0);
        } else {
            assert(s[i as int] == c);
        }
    }
}

/// Writing cell `h` changes nothing for a type whose walk never meets `h`.
pub proof fn lemma_update_unmet(m: Mono, cells: Seq<HoleKind>, f: nat, h: nat, c: HoleKind)
    requires
        bounded(m, cells, f),
        !occurs(h, m, cells, f),
        h < cells.len(),
    ensures
        bounded(m, cells.update(h as int, c), f),
        resolve(m, cells, f) == resolve(m, cells.update(h as int, c), f),
        rsize(m, cells, f) == rsize(m, cells.update(h as int, c), f),
    decreases f, m,
{
    let s = cells.update(h as int, c);
    match m {
        Mono::Hole(i) => {
            assert(s[i as int] == cells[i as int]);
            if is_filled(cells[i as int]) {
                lemma_update_unmet(content(cells[i as int]), cells, (f - 1) as nat, h, c);
            }
        },
        Mono::Arrow(a, b) => {
            lemma_update_unmet(*a, cells, f, h, c);
            lemma_update_unmet(*b, cells, f, h, c);
        },
        _ => {},
    }
}

proof fn lemma_fill_shift(m: Mono, cells: Seq<HoleKind>, f: nat, d: nat, h: nat, t: Type)
    requires
        bounded(m, cells, f),
        h < cells.len(),
        !is_filled(cells[h as int]),
        bounded(view_type(*t), cells.update(h as int, HoleKind::Filled(t)), d),
    ensures
        bounded(m, cells.update(h as int, HoleKind::Filled(t)), f + d + 1),
    decreases f, m,
{
    let s = cells.update(h as int, HoleKind::Filled(t));
    match m {
        Mono::Hole(i) => {
            if i == h {
                lemma_fuel(view_type(*t), s, d, f + d, 0);
            } else {
                assert(s[i as int] == cells[i as int]);
                if is_filled(cells[i as int]) {
                    lemma_fill_shift(content(cells[i as int]), cells, (f - 1) as nat, d, h, t);
                }
            }
        },
        Mono::Arrow(a, b) => {
            lemma_fill_shift(*a, cells, f, d, h, t);
            lemma_fill_shift(*b, cells, f, d, h, t);
        },
        _ => {},
    }
}

/// Filling an empty cell with a type whose walk never meets that cell keeps
/// the arena acyclic, with a larger depth.
pub proof fn lemma_fill_acyclic(cells: Seq<HoleKind>, d: nat, h: nat, t: Type)
    requires
        acyclic(cells, d),
        h < cells.len(),
        !is_filled(cells[h as int]),
        valid(view_type(*t), cells.len()),
        !occurs(h, view_type(*t), cells, d),
    ensures
        acyclic(cells.update(h as int, HoleKind::Filled(t)), d + d + 1),
        n_empty(cells.update(h as int, HoleKind::Filled(t))) < n_empty(cells),
        extends(cells, cells.update(h as int, HoleKind::Filled(t))),
{
    let s = cells.update(h as int, HoleKind::Filled(t));
    lemma_valid_bounded(view_type(*t), cells, d);
    lemma_update_unmet(view_type(*t), cells, d, h, HoleKind::Filled(t));
    assert forall|i: nat| i < s.len() implies #[trigger] bounded(Mono::Hole(i), s, d + d + 1) by {
        assert(bounded(Mono::Hole(i), cells, d));
        lemma_fill_shift(Mono::Hole(i), cells, d, d, h, t);
    }
    lemma_n_empty_fill(cells, h as int, HoleKind::Filled(t));
}

pub proof fn lemma_n_empty_fill(cells: Seq<HoleKind>, h: int, c: HoleKind)
    requires
        0 <= h < cells.len(),
        !is_filled(cells[h]),
        is_filled(c),
    ensures
        n_empty(cells.update(h, c)) + 1 == n_empty(cells),
    decreases cells.len(),
{
    let s = cells.update(h, c);
    if h == cells.len() - 1 {
        assert(s.drop_last() =~= cells.drop_last());
    } else {
        lemma_n_empty_fill(cells.drop_last(), h, c);
        assert(s.drop_last() =~= cells.drop_last().update(h, c));
    }
}

pub proof fn lemma_n_empty_push(cells: Seq<HoleKind>, c: HoleKind)
    ensures
        n_empty(cells.push(c)) == n_empty(cells) + if is_filled(c) {
            0nat
        } else {
            1nat
        },
{
    assert(cells.push(c).drop_last() =~= cells);
}

/// In an arena that extends `s1`, resolving can go through `s1` first.
pub proof fn lemma_extend_resolve(
    m: Mono,
    s1: Seq<HoleKind>,
    f: nat,
    s2: Seq<HoleKind>,
    d2: nat,
)
    requires
        bounded(m, s1, f),
        acyclic(s2, d2),
        extends(s1, s2),
    ensures
        resolve(m, s2, d2) == resolve(resolve(m, s1, f), s2, d2),
    decreases f, m,
{
    match m {
        Mono::Hole(i) => {
            if is_filled(s1[i as int]) {
                let c = content(s1[i as int]);
                assert(s2[i as int] == s1[i as int]);
                assert(bounded(Mono::Hole(i), s2, d2));
                lemma_fuel(c, s2, (d2 - 1) as nat, d2, 0);
                lemma_extend_resolve(c, s1, (f - 1) as nat, s2, d2);
            }
        },
        Mono::Arrow(a, b) => {
            lemma_extend_resolve(*a, s1, f, s2, d2);
            lemma_extend_resolve(*b, s1, f, s2, d2);
        },
        _ => {},
    }
}

/// A resolved type mentions empty cells only.
pub proof fn lemma_resolved_empty(m: Mono, cells: Seq<HoleKind>, f: nat, h: nat)
    requires
        bounded(m, cells, f),
        mentions(resolve(m, cells, f), h),
    ensures
        h < cells.len(),
        !is_filled(cells[h as int]),
        occurs(h, m, cells, f),
    decreases f, m,
{
    match m {
        Mono::Hole(i) => {
            if is_filled(cells[i as int]) {
                lemma_resolved_empty(content(cells[i as int]), cells, (f - 1) as nat, h);
            }
        },
        Mono::Arrow(a, b) => {
            if mentions(resolve(*a, cells, f), h) {
                lemma_resolved_empty(*a, cells, f, h);
            } else {
                lemma_resolved_empty(*b, cells, f, h);
            }
        },
        _ => {},
    }
}

/// If the walk of a type that stands for a hole meets an empty cell, that
/// cell is the hole it stands for.
pub proof fn lemma_occurs_in_chain(m: Mono, cells: Seq<HoleKind>, f: nat, h: nat)
    requires
        bounded(m, cells, f),
        resolve(m, cells, f) is Hole,
        occurs(h, m, cells, f),
        h < cells.len(),
        !is_filled(cells[h as int]),
    ensures
        resolve(m, cells, f) == Mono::Hole(h),
    decreases f, m,
{
    if let Mono::Hole(i) = m {
        if i != h {
            lemma_occurs_in_chain(content(cells[i as int]), cells, (f - 1) as nat, h);
        }
    }
}

/// A type that mentions only empty cells resolves to itself.
pub proof fn lemma_resolve_fixed(m: Mono, cells: Seq<HoleKind>, f: nat)
    requires
        forall|h: nat| #[trigger] mentions(m, h) ==> h < cells.len() && !is_filled(cells[h as int]),
    ensures
        resolve(m, cells, f) == m,
        valid(m, cells.len()),
    decreases m,
{
    match m {
        Mono::Hole(i) => {
            assert(mentions(m, i));
        },
        Mono::Arrow(a, b) => {
            assert forall|h: nat| #[trigger] mentions(*a, h) implies h < cells.len() && !is_filled(
                cells[h as int],
            ) by {
                assert(mentions(m, h));
            }
            assert forall|h: nat| #[trigger] mentions(*b, h) implies h < cells.len() && !is_filled(
                cells[h as int],
            ) by {
                assert(mentions(m, h));
            }
            lemma_resolve_fixed(*a, cells, f);
            lemma_resolve_fixed(*b, cells, f);
        },
        _ => {},
    }
}

/// The views of a list of types.
pub open spec fn views(s: Seq<Type>) -> Seq<Mono> {
    s.map_values(|t: Type| view_type(*t))
}

/// The built-in string type.
pub fn string() -> (r: Type)
    ensures
        r@ == Mono::Var("String"@),
{
    Box::new(TypeKind::Var("String".to_owned()))
}

/// The built-in integer type.
pub fn integer() -> (r: Type)
    ensures
        r@ == Mono::Var("Int"@),
{
    Box::new(TypeKind::Var("Int".to_owned()))
}

/// The built-in boolean type.
pub fn bool() -> (r: Type)
    ensures
        r@ == Mono::Var("Bool"@),
{
    Box::new(TypeKind::Var("Bool".to_owned()))
}

impl Holes {
    /// An arena without cells.
    pub fn new() -> (r: Holes)
        ensures
            r.wf(),
            r.cells@.len() == 0,
    {
        Holes { cells: Vec::new(), depth: Ghost(0) }
    }
}

impl Hole {
    /// Fills an empty hole with the given [Type]. The walk of `t` must not
    /// meet the hole itself, so that no cycle arises.
    pub fn fill_with(&self, holes: &mut Holes, t: Type)
        requires
            old(holes).wf(),
            self.0 < old(holes).len(),
            !is_filled(old(holes).cells@[self.0 as int]),
            valid(t@, old(holes).len()),
            !occurs(self.0 as nat, t@, old(holes).cells@, old(holes).depth@),
        ensures
            final(holes).wf(),
            final(holes).cells@ == old(holes).cells@.update(self.0 as int, HoleKind::Filled(t)),
            final(holes).depth@ == old(holes).depth@ + old(holes).depth@ + 1,
            n_empty(final(holes).cells@) < n_empty(old(holes).cells@),
            extends(old(holes).cells@, final(holes).cells@),
    {
        proof {
            lemma_fill_acyclic(holes.cells@, holes.depth@, self.0 as nat, t);
        }
        let ghost d = holes.depth@;
        holes.cells.set(self.0, HoleKind::Filled(t));
        holes.depth = Ghost(d + d + 1);
    }

    /// Creates an empty hole with a debug name, born at `level`.
    pub fn new(holes: &mut Holes, name: String, level: u32) -> (r: Hole)
        requires
            old(holes).wf(),
        ensures
            final(holes).wf(),
            final(holes).cells@ == old(holes).cells@.push(HoleKind::Empty(name, level)),
            final(holes).depth == old(holes).depth,
            r.0 == old(holes).len(),
            n_empty(final(holes).cells@) == n_empty(old(holes).cells@) + 1,
    {
        proof {
            lemma_push_acyclic(holes.cells@, holes.depth@, HoleKind::Empty(name, level));
            lemma_n_empty_push(holes.cells@, HoleKind::Empty(name, level));
        }
        let r = Hole(holes.cells.len());
        holes.cells.push(HoleKind::Empty(name, level));
        r
    }

    /// Gives access to the cell of this hole.
    pub fn get_mut<'a>(&self, holes: &'a mut Holes) -> (r: &'a mut HoleKind)
        requires
            self.0 < old(holes).len(),
        ensures
            *r == old(holes).cells@[self.0 as int],
            final(holes).cells@ == old(holes).cells@.update(self.0 as int, *final(r)),
            final(holes).depth == old(holes).depth,
    {
        &mut holes.cells[self.0]
    }

    /// A copy of the cell of this hole.
    pub fn get(&self, holes: &Holes) -> (r: HoleKind)
        requires
            self.0 < holes.len(),
        ensures
            r == holes.cells@[self.0 as int],
    {
        holes.cells[self.0].duplicate()
    }
}

impl HoleKind {
    /// A deep copy.
    pub fn duplicate(&self) -> (r: HoleKind)
        ensures
            r == *self,
    {
        match self {
            HoleKind::Filled(t) => HoleKind::Filled(Box::new(t.duplicate())),
            HoleKind::Empty(name, level) => HoleKind::Empty(name.clone(), *level),
        }
    }
}

impl Scheme {
    pub fn new(binds: Vec<String>, t: Type) -> (r: Scheme)
        ensures
            r.binds == binds,
            r.t == t,
    {
        Scheme { binds, t }
    }
}

impl TypeKind {
    /// A deep copy.
    pub fn duplicate(&self) -> (r: TypeKind)
        ensures
            r == *self,
        decreases self,
    {
        match self {
            TypeKind::Var(name) => TypeKind::Var(name.clone()),
            TypeKind::Hole(h) => TypeKind::Hole(*h),
            TypeKind::Generalized(n) => TypeKind::Generalized(*n),
            TypeKind::Arrow(a, b) => TypeKind::Arrow(Box::new(a.duplicate()), Box::new(b.duplicate())),
        }
    }

    /// Rebuilds this type with every filled hole replaced by what it holds and
    /// every `Generalized(i)` replaced by `substitutions[i]`. An index out of
    /// range is left in place.
    pub fn instantiate(&self, substitutions: &[Type], holes: &Holes) -> (r: Type)
        requires
            holes.wf(),
            valid(self@, holes.len()),
        ensures
            r@ == substitute(holes.resolved(self@), views(substitutions@)),
        decreases rsize(self@, holes.cells@, holes.depth@),
    {
        proof {
            lemma_valid_bounded(self@, holes.cells@, holes.depth@);
        }
        match self {
            TypeKind::Var(name) => Box::new(TypeKind::Var(name.clone())),
            TypeKind::Generalized(n) => {
                if (*n as usize) < substitutions.len() {
                    Box::new(substitutions[*n as usize].duplicate())
                } else {
                    Box::new(TypeKind::Generalized(*n))
                }
            },
            TypeKind::Arrow(a, b) => {
                let ra = a.instantiate(substitutions, holes);
                let rb = b.instantiate(substitutions, holes);
                Box::new(TypeKind::Arrow(ra, rb))
            },
            TypeKind::Hole(h) => match &holes.cells[h.0] {
                HoleKind::Filled(c) => {
                    proof {
                        let d = holes.depth@;
                        assert(bounded(Mono::Hole(h.0 as nat), holes.cells@, d));
                        lemma_fuel(c@, holes.cells@, (d - 1) as nat, d, 0);
                    }
                    c.instantiate(substitutions, holes)
                },
                HoleKind::Empty(_, _) => Box::new(TypeKind::Hole(*h)),
            },
        }
    }
}

/// Whether a type is displayed in parentheses on the left of an arrow: it
/// stands for an arrow.
pub fn need_parens(t: &TypeKind, holes: &Holes) -> (r: bool)
    requires
        holes.wf(),
        valid(t@, holes.len()),
    ensures
        r == holes.resolved(t@) is Arrow,
    decreases rsize(t@, holes.cells@, holes.depth@),
{
    proof {
        lemma_valid_bounded(t@, holes.cells@, holes.depth@);
    }
    match t {
        TypeKind::Arrow(_, _) => true,
        TypeKind::Hole(h) => match &holes.cells[h.0] {
            HoleKind::Filled(c) => {
                proof {
                    let d = holes.depth@;
                    assert(bounded(Mono::Hole(h.0 as nat), holes.cells@, d));
                    lemma_fuel(c@, holes.cells@, (d - 1) as nat, d, 0);
                }
                need_parens(c, holes)
            },
            HoleKind::Empty(_, _) => false,
        },
        _ => false,
    }
}

} // verus!
