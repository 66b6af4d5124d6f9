//! Renaming in two phases: the rename queue is computed in full from the
//! unchanged program, then every occurrence is rewritten from it.
use vstd::prelude::*;
use vstd::set_lib::*;
use vstd::relations::injective_on;
use crate::naming::Renamer;
use crate::tree::{Config, Ident, Program};

verus! {

/// The names held by a list of strings.
pub open spec fn views(v: Seq<String>) -> Seq<Seq<char>> {
    v.map_values(|s: String| s@)
}

/// `name` is the candidate of the policy for `orig` at the smallest counter
/// value whose candidate `used` does not hold.
pub open spec fn first_free<R: Renamer>(renamer: R, orig: Seq<char>, name: Seq<char>, used: spec_fn(Seq<char>) -> bool) -> bool {
    &&& !used(name)
    &&& exists|n: nat| name == renamer.spec_name(orig, n) && forall|j: nat| j < n ==> used(#[trigger] renamer.spec_name(orig, j))
}

/// A name that is the first free one for `used` is also the first free one
/// for any `more` that holds wherever `used` holds and does not hold of the
/// name.
pub proof fn lemma_first_free_mono<R: Renamer>(
    renamer: R,
    orig: Seq<char>,
    name: Seq<char>,
    used: spec_fn(Seq<char>) -> bool,
    more: spec_fn(Seq<char>) -> bool,
)
    requires
        first_free(renamer, orig, name, used),
        forall|x: Seq<char>| #[trigger] used(x) ==> more(x),
        !more(name),
    ensures
        first_free(renamer, orig, name, more),
{
    let n = choose|n: nat| name == renamer.spec_name(orig, n) && forall|j: nat| j < n ==> used(#[trigger] renamer.spec_name(orig, j));
    assert forall|j: nat| j < n implies more(#[trigger] renamer.spec_name(orig, j)) by {
        assert(used(renamer.spec_name(orig, j)));
    }
}

/// One entry of the rename queue: the identity of the binding whose first
/// binding site is `first`, and its new name.
pub struct RenameEntry {
    pub first: usize,
    pub sym: String,
    pub ctxt: u32,
    pub name: String,
}

impl Program {
    /// `e` is the entry of the identity of occurrence `k`.
    pub open spec fn entry_of(&self, e: RenameEntry, k: int) -> bool {
        e.sym@ == self.sym(k) && e.ctxt == self.ctxt(k)
    }

    /// `x` is the name of an occurrence, or the new name of an entry of `q`
    /// before `a`.
    pub open spec fn taken_before(&self, q: Seq<RenameEntry>, a: int, x: Seq<char>) -> bool {
        self.has_name(x) || exists|b: int| 0 <= b < a && #[trigger] q[b].name@ == x
    }

    /// What the rename queue `q` holds: one entry per first binding site, in
    /// the order the bindings are considered; its original name where the
    /// binding keeps it, else the policy's first candidate that is neither
    /// the name of an occurrence nor the name of an earlier entry, and that
    /// no other entry holds.
    pub open spec fn queue_ok<R: Renamer>(&self, cfg: Config, renamer: R, q: Seq<RenameEntry>) -> bool {
        let m = renamer.spec_mangle();
        &&& forall|a: int| 0 <= a < q.len() ==> self.is_first(#[trigger] q[a].first as int)
        &&& forall|a: int| 0 <= a < q.len() ==> #[trigger] q[a].sym@ == self.sym(q[a].first as int)
            && q[a].ctxt == self.ctxt(q[a].first as int)
        &&& forall|a: int|
            0 <= a < q.len() && self.keeps(cfg, m, #[trigger] q[a].first as int) ==> q[a].name@
                == self.sym(q[a].first as int)
        &&& forall|a: int|
            0 <= a < q.len() && !self.keeps(cfg, m, #[trigger] q[a].first as int) ==> {
                &&& !self.has_name(q[a].name@)
                &&& first_free(renamer, self.sym(q[a].first as int), q[a].name@, |x: Seq<char>| self.taken_before(q, a, x))
            }
        &&& forall|a: int, b: int|
            0 <= a < b < q.len() ==> self.before(cfg, #[trigger] q[a].first as int, #[trigger] q[b].first as int)
        &&& forall|a: int, b: int|
            0 <= a < q.len() && 0 <= b < q.len() && a != b ==> #[trigger] q[a].first
                != #[trigger] q[b].first
        &&& forall|a: int, b: int|
            0 <= a < q.len() && 0 <= b < q.len() && a != b && !self.keeps(cfg, m, q[a].first as int)
                ==> #[trigger] q[a].name@ != #[trigger] q[b].name@
    }

    /// Two first binding sites of one identity are the same site.
    pub proof fn lemma_first_unique(&self, i: int, j: int)
        requires
            self.is_first(i),
            self.is_first(j),
            self.same_id(i, j),
        ensures
            i == j,
    {
        if i < j {
            assert(self.decl_of(i, j));
        } else if j < i {
            assert(self.decl_of(j, i));
        }
    }

    /// A declared identity has a first binding site.
    pub proof fn lemma_first_exists(&self, j: int)
        requires
            self.valid(j),
            self.binding(j),
        ensures
            exists|f: int| self.is_first(f) && #[trigger] self.same_id(f, j),
        decreases j,
    {
        if self.is_first(j) {
            assert(self.same_id(j, j));
        } else {
            let i = choose|i: int| 0 <= i < j && #[trigger] self.decl_of(i, j);
            self.lemma_first_exists(i);
            let f = choose|f: int| self.is_first(f) && #[trigger] self.same_id(f, i);
            assert(self.same_id(f, j));
        }
    }
}

/// At least `n` names lie in `names` when `f` maps `0..n` injectively into it.
proof fn lemma_pigeonhole(names: Seq<Seq<char>>, f: spec_fn(int) -> Seq<char>, n: int)
    requires
        n >= 0,
        forall|a: int, b: int| 0 <= a < n && 0 <= b < n && #[trigger] f(a) == #[trigger] f(b) ==> a == b,
        forall|k: int| 0 <= k < n ==> names.contains(#[trigger] f(k)),
    ensures
        n <= names.len(),
{
    let dom = set_int_range(0, n);
    let img = dom.map(f);
    lemma_int_range(0, n);
    assert(injective_on(f, dom));
    lemma_map_size(dom, img, f);
    assert forall|x: Seq<char>| img.contains(x) implies names.to_set().contains(x) by {
        let k = choose|k: int| dom.contains(k) && f(k) == x;
        assert(names.contains(f(k)));
    }
    names.lemma_cardinality_of_set();
    lemma_len_subset(img, names.to_set());
}

fn contains_name(v: &Vec<String>, s: &String) -> (r: bool)
    ensures
        r == views(v@).contains(s@),
{
    let mut i: usize = 0;
    while i < v.len()
        invariant
            i <= v@.len(),
            forall|j: int| 0 <= j < i ==> views(v@)[j] != s@,
        decreases v@.len() - i,
    {
        if v[i] == *s {
            assert(views(v@)[i as int] == s@);
            return true;
        }
        i += 1;
    }
    false
}

/// The first candidate of the policy for `orig` that `taken` does not hold.
/// The counter starts at zero on every call; since a name, once in `taken`,
/// stays there, this gives the names that one counter per original name,
/// shared by all bindings of that name, would give.
fn fresh_name<R: Renamer>(renamer: &R, orig: &String, taken: &Vec<String>) -> (r: String)
    requires
        taken@.len() < usize::MAX,
    ensures
        first_free(*renamer, orig@, r@, |x: Seq<char>| views(taken@).contains(x)),
{
    let ghost f = |k: int| renamer.spec_name(orig@, k as nat);
    let mut n: usize = 0;
    loop
        invariant
            n <= taken@.len(),
            taken@.len() < usize::MAX,
            f == (|k: int| renamer.spec_name(orig@, k as nat)),
            forall|k: int| 0 <= k < n ==> views(taken@).contains(#[trigger] f(k)),
        decreases taken@.len() - n,
    {
        let ghost n0 = n;
        let cand = renamer.new_name_for(orig, &mut n);
        if !contains_name(taken, &cand) {
            assert(cand@ == renamer.spec_name(orig@, n0 as nat));
            assert forall|j: nat| j < n0 implies views(taken@).contains(#[trigger] renamer.spec_name(orig@, j)) by {
                assert(f(j as int) == renamer.spec_name(orig@, j));
            }
            return cand;
        }
        proof {
            assert(views(taken@).contains(f(n0 as int)));
            assert forall|a: int, b: int| 0 <= a < n && 0 <= b < n && #[trigger] f(a) == #[trigger] f(b) implies a == b by {
                renamer.lemma_name_injective(orig@, a as nat, b as nat);
            }
            lemma_pigeonhole(views(taken@), f, n as int);
        }
    }
}

impl Program {
    /// Conflict analysis: the rename queue of the program, computed without
    /// changing it. Bindings are considered by tier, then in declaration
    /// order.
    pub fn build_queue<R: Renamer>(&self, cfg: &Config, renamer: &R) -> (q: Vec<RenameEntry>)
        requires
            self.wf(),
        ensures
            self.queue_ok(*cfg, *renamer, q@),
            forall|k: int| #[trigger] self.is_first(k) ==> exists|a: int| 0 <= a < q@.len() && q@[a].first == k,
    {
        let m = renamer.mangle();
        let n = self.idents.len();
        let mut taken: Vec<String> = Vec::new();
        let mut i: usize = 0;
        while i < n
            invariant
                n == self.idents@.len(),
                i <= n,
                taken@.len() == i,
                forall|j: int| 0 <= j < i ==> #[trigger] views(taken@)[j] == self.sym(j),
            decreases n - i,
        {
            let ghost taken0 = taken@;
            taken.push(self.idents[i].sym.clone());
            proof {
                assert forall|j: int| 0 <= j < i + 1 implies #[trigger] views(taken@)[j] == self.sym(j) by {
                    if j < i {
                        assert(views(taken@)[j] == views(taken0)[j]);
                    }
                }
            }
            i += 1;
        }
        let mut q: Vec<RenameEntry> = Vec::new();
        let mut t: u8 = 0;
        while t < 3
            invariant
                self.wf(),
                m == renamer.spec_mangle(),
                n == self.idents@.len(),
                t <= 3,
                taken@.len() == n + q@.len(),
                q@.len() <= t as int * n as int,
                forall|j: int| 0 <= j < n ==> #[trigger] views(taken@)[j] == self.sym(j),
                forall|a: int| 0 <= a < q@.len() ==> #[trigger] views(taken@)[n + a] == q@[a].name@,
                self.queue_ok(*cfg, *renamer, q@),
                forall|a: int| 0 <= a < q@.len() ==> self.tier(*cfg, #[trigger] q@[a].first as int) < t,
                forall|k: int| #[trigger] self.is_first(k) && self.tier(*cfg, k) < t ==> exists|a: int|
                    0 <= a < q@.len() && q@[a].first == k,
            decreases 3 - t,
        {
            let mut k: usize = 0;
            while k < n
                invariant
                    self.wf(),
                    m == renamer.spec_mangle(),
                    n == self.idents@.len(),
                    t < 3,
                    k <= n,
                    taken@.len() == n + q@.len(),
                    q@.len() <= t as int * n as int + k,
                    forall|j: int| 0 <= j < n ==> #[trigger] views(taken@)[j] == self.sym(j),
                    forall|a: int| 0 <= a < q@.len() ==> #[trigger] views(taken@)[n + a] == q@[a].name@,
                    self.queue_ok(*cfg, *renamer, q@),
                    forall|a: int| 0 <= a < q@.len() ==> self.tier(*cfg, #[trigger] q@[a].first as int) < t
                        || (self.tier(*cfg, q@[a].first as int) == t && q@[a].first < k),
                    forall|kk: int| #[trigger] self.is_first(kk) && (self.tier(*cfg, kk) < t || (self.tier(*cfg, kk) == t && kk < k)) ==> exists|a: int|
                        0 <= a < q@.len() && q@[a].first == kk,
                decreases n - k,
            {
                if self.is_first_exec(k) && self.tier_exec(cfg, k) == t {
                    proof {
                        assert(t as int * n as int <= 2 * n as int) by (nonlinear_arith)
                            requires t < 3;
                    }
                    let keep = self.keeps_exec(cfg, m, k);
                    let name = if keep {
                        self.idents[k].sym.clone()
                    } else {
                        fresh_name(renamer, &self.idents[k].sym, &taken)
                    };
                    proof {
                        if !keep {
                            assert forall|j: int| self.valid(j) implies #[trigger] self.sym(j) != name@ by {
                                assert(views(taken@)[j] == self.sym(j));
                            }
                            assert forall|a: int| 0 <= a < q@.len() implies #[trigger] q@[a].name@ != name@ by {
                                assert(views(taken@)[n + a] == q@[a].name@);
                            }
                        }
                    }
                    let ghost q0 = q@;
                    let ghost taken0 = taken@;
                    q.push(RenameEntry {
                        first: k,
                        sym: self.idents[k].sym.clone(),
                        ctxt: self.idents[k].ctxt,
                        name: name.clone(),
                    });
                    taken.push(name);
                    proof {
                        assert forall|j: int| 0 <= j < n implies #[trigger] views(taken@)[j] == self.sym(j) by {
                            assert(views(taken@)[j] == views(taken0)[j]);
                        }
                        assert forall|a: int| 0 <= a < q@.len() implies #[trigger] views(taken@)[n + a] == q@[a].name@ by {
                            if a < q0.len() {
                                assert(views(taken@)[n + a] == views(taken0)[n + a]);
                            }
                        }
                        let c = q0.len() as int;
                        assert(q@[c].first == k);
                        assert(q@[c].sym@ == self.sym(k as int));
                        assert forall|a: int| 0 <= a < q@.len() implies self.is_first(#[trigger] q@[a].first as int) by {
                            if a < c {
                                assert(q@[a] == q0[a]);
                            }
                        }
                        assert forall|a: int| 0 <= a < q@.len() implies #[trigger] q@[a].sym@ == self.sym(q@[a].first as int)
                            && q@[a].ctxt == self.ctxt(q@[a].first as int) by {
                            if a < c {
                                assert(q@[a] == q0[a]);
                            }
                        }
                        assert forall|a: int| 0 <= a < q@.len() && self.keeps(*cfg, m, #[trigger] q@[a].first as int)
                            implies q@[a].name@ == self.sym(q@[a].first as int) by {
                            if a < c {
                                assert(q@[a] == q0[a]);
                            }
                        }
                        assert forall|a: int| 0 <= a < q@.len() && !self.keeps(*cfg, m, #[trigger] q@[a].first as int)
                            implies {
                                &&& !self.has_name(q@[a].name@)
                                &&& first_free(*renamer, self.sym(q@[a].first as int), q@[a].name@, |x: Seq<char>| self.taken_before(q@, a, x))
                            } by {
                            let qa = q@;
                            if a < c {
                                assert(qa[a] == q0[a]);
                                assert forall|x: Seq<char>| #[trigger] self.taken_before(q0, a, x) implies self.taken_before(qa, a, x) by {
                                    if !self.has_name(x) {
                                        let b = choose|b: int| 0 <= b < a && #[trigger] q0[b].name@ == x;
                                        assert(qa[b] == q0[b]);
                                    }
                                }
                                assert forall|b: int| 0 <= b < a implies #[trigger] qa[b].name@ != qa[a].name@ by {
                                    assert(qa[b] == q0[b]);
                                    assert(q0[a].name@ != q0[b].name@);
                                }
                                lemma_first_free_mono(*renamer, self.sym(qa[a].first as int), qa[a].name@,
                                    |x: Seq<char>| self.taken_before(q0, a, x), |x: Seq<char>| self.taken_before(qa, a, x));
                            } else {
                                assert forall|x: Seq<char>| #[trigger] views(taken0).contains(x) implies self.taken_before(qa, c, x) by {
                                    let i = choose|i: int| 0 <= i < views(taken0).len() && views(taken0)[i] == x;
                                    if i < n {
                                        assert(views(taken0)[i] == self.sym(i));
                                        assert(self.valid(i));
                                    } else {
                                        let b = i - n;
                                        assert(views(taken0)[n + b] == q0[b].name@);
                                        assert(qa[b] == q0[b]);
                                    }
                                }
                                assert forall|b: int| 0 <= b < c implies #[trigger] qa[b].name@ != qa[c].name@ by {
                                    assert(qa[b] == q0[b]);
                                }
                                lemma_first_free_mono(*renamer, self.sym(k as int), name@,
                                    |x: Seq<char>| views(taken0).contains(x), |x: Seq<char>| self.taken_before(qa, c, x));
                            }
                        }
                        assert forall|a: int, b: int|
                            0 <= a < b < q@.len() implies self.before(*cfg, #[trigger] q@[a].first as int, #[trigger] q@[b].first as int) by {
                            if b < c {
                                assert(q@[a] == q0[a]);
                                assert(q@[b] == q0[b]);
                            } else {
                                assert(q@[a] == q0[a]);
                            }
                        }
                        assert forall|a: int, b: int|
                            0 <= a < q@.len() && 0 <= b < q@.len() && a != b implies #[trigger] q@[a].first
                                != #[trigger] q@[b].first by {
                            if a < c && b < c {
                                assert(q0[a].first != q0[b].first);
                            } else if a < c {
                                assert(self.tier(*cfg, q0[a].first as int) < t || q0[a].first < k);
                            } else if b < c {
                                assert(self.tier(*cfg, q0[b].first as int) < t || q0[b].first < k);
                            }
                        }
                        assert forall|kk: int| #[trigger] self.is_first(kk) && (self.tier(*cfg, kk) < t || (self.tier(*cfg, kk) == t && kk < k + 1)) implies exists|a: int|
                            0 <= a < q@.len() && q@[a].first == kk by {
                            if kk == k {
                                assert(q@[q0.len() as int].first == kk);
                            } else {
                                let a = choose|a: int| 0 <= a < q0.len() && q0[a].first == kk;
                                assert(q@[a].first == kk);
                            }
                        }
                        assert forall|a: int, b: int|
                            0 <= a < q@.len() && 0 <= b < q@.len() && a != b && !self.keeps(*cfg, m, q@[a].first as int)
                                implies #[trigger] q@[a].name@ != #[trigger] q@[b].name@ by {
                            if a < q0.len() && b < q0.len() {
                                assert(q0[a].name@ != q0[b].name@);
                            } else if a < q0.len() {
                                if keep {
                                    assert(self.sym(k as int) == name@);
                                    assert(!self.has_name(q0[a].name@));
                                    assert(self.valid(k as int));
                                }
                            }
                        }
                    }
                }
                k += 1;
            }
            proof {
                assert(t as int * n as int + n as int == (t as int + 1) * n as int) by (nonlinear_arith);
            }
            t += 1;
        }
        proof {
            assert forall|k: int| #[trigger] self.is_first(k) implies exists|a: int| 0 <= a < q@.len() && q@[a].first == k by {
                assert(self.tier(*cfg, k) < 3);
            }
        }
        q
    }
}

impl Program {
    /// `x` is the name of an occurrence, or the new name of a binding
    /// considered before `k`.
    pub open spec fn used_before(&self, new: Program, cfg: Config, k: int, x: Seq<char>) -> bool {
        self.has_name(x) || exists|l: int| self.is_first(l) && self.before(cfg, l, k) && #[trigger] new.sym(l) == x
    }

    /// What a rename pass with `renamer` and `cfg` turns `self` into: only
    /// names change; occurrences of one identity get one name; references to
    /// no binding keep theirs; a first binding site that keeps its name has
    /// its original one, and one that does not gets the policy's candidate
    /// with the smallest counter that is neither the name of an occurrence
    /// nor the new name of a binding considered before it; no other binding
    /// gets that name.
    pub open spec fn renamed<R: Renamer>(&self, new: Program, cfg: Config, renamer: R) -> bool {
        let m = renamer.spec_mangle();
        &&& new.scopes@ == self.scopes@
        &&& new.ctxt_marks@ == self.ctxt_marks@
        &&& new.idents@.len() == self.idents@.len()
        &&& forall|k: int| self.valid(k) ==> {
            &&& (#[trigger] new.idents@[k]).scope == self.idents@[k].scope
            &&& new.idents@[k].is_binding == self.idents@[k].is_binding
            &&& new.idents@[k].is_class == self.idents@[k].is_class
        }
        &&& forall|k: int| self.valid(k) && !self.declared(k) ==> #[trigger] new.sym(k) == self.sym(k)
        &&& forall|i: int, j: int|
            self.valid(i) && self.valid(j) && self.same_id(i, j) ==> #[trigger] new.sym(i)
                == #[trigger] new.sym(j)
        &&& forall|k: int| #[trigger] self.is_first(k) && self.keeps(cfg, m, k) ==> new.sym(k) == self.sym(k)
        &&& forall|k: int| #[trigger] self.is_first(k) && !self.keeps(cfg, m, k) ==> {
            &&& !self.has_name(new.sym(k))
            &&& first_free(renamer, self.sym(k), new.sym(k), |x: Seq<char>| self.used_before(new, cfg, k, x))
        }
        &&& forall|k: int, l: int|
            self.is_first(k) && self.is_first(l) && k != l && !self.keeps(cfg, m, k) ==> #[trigger] new.sym(k)
                != #[trigger] new.sym(l)
    }

    /// The new name `s` of occurrence `k` comes from its identity's entry of
    /// the queue, or, where the identity is not declared, is its old name.
    pub open spec fn applied(&self, q: Seq<RenameEntry>, s: Seq<char>, k: int) -> bool {
        ||| exists|a: int| 0 <= a < q.len() && #[trigger] self.entry_of(q[a], k) && s == q[a].name@
        ||| !self.declared(k) && s == self.sym(k)
    }

    proof fn lemma_entry_first<R: Renamer>(&self, cfg: Config, renamer: R, q: Seq<RenameEntry>, a: int, k: int)
        requires
            self.queue_ok(cfg, renamer, q),
            0 <= a < q.len(),
            self.valid(k),
            self.entry_of(q[a], k),
        ensures
            self.decl_of(q[a].first as int, k),
            self.declared(k),
            self.is_first(k) ==> q[a].first == k,
    {
        let f = q[a].first as int;
        assert(self.is_first(f));
        assert(self.decl_of(f, k));
        if self.is_first(k) {
            self.lemma_first_unique(f, k);
        }
    }

    proof fn lemma_renamed<R: Renamer>(&self, new: Program, cfg: Config, renamer: R, q: Seq<RenameEntry>)
        requires
            self.wf(),
            self.queue_ok(cfg, renamer, q),
            new.scopes@ == self.scopes@,
            new.ctxt_marks@ == self.ctxt_marks@,
            new.idents@.len() == self.idents@.len(),
            forall|k: int| self.valid(k) ==> {
                &&& (#[trigger] new.idents@[k]).ctxt == self.idents@[k].ctxt
                &&& new.idents@[k].scope == self.idents@[k].scope
                &&& new.idents@[k].is_binding == self.idents@[k].is_binding
                &&& new.idents@[k].is_class == self.idents@[k].is_class
            },
            forall|k: int| self.valid(k) ==> #[trigger] self.applied(q, new.sym(k), k),
        ensures
            self.renamed(new, cfg, renamer),
    {
        let m = renamer.spec_mangle();
        assert forall|k: int| self.valid(k) && !self.declared(k) implies #[trigger] new.sym(k) == self.sym(k) by {
            assert(self.applied(q, new.sym(k), k));
            if exists|a: int| 0 <= a < q.len() && #[trigger] self.entry_of(q[a], k) && new.sym(k) == q[a].name@ {
                let a = choose|a: int| 0 <= a < q.len() && #[trigger] self.entry_of(q[a], k) && new.sym(k) == q[a].name@;
                self.lemma_entry_first(cfg, renamer, q, a, k);
            }
        }
        assert forall|i: int, j: int|
            self.valid(i) && self.valid(j) && self.same_id(i, j) implies #[trigger] new.sym(i) == #[trigger] new.sym(j) by {
            assert(self.applied(q, new.sym(i), i));
            assert(self.applied(q, new.sym(j), j));
            if exists|a: int| 0 <= a < q.len() && #[trigger] self.entry_of(q[a], i) && new.sym(i) == q[a].name@ {
                let a = choose|a: int| 0 <= a < q.len() && #[trigger] self.entry_of(q[a], i) && new.sym(i) == q[a].name@;
                self.lemma_entry_first(cfg, renamer, q, a, i);
                assert(self.decl_of(q[a].first as int, j));
                let b = choose|b: int| 0 <= b < q.len() && #[trigger] self.entry_of(q[b], j) && new.sym(j) == q[b].name@;
                self.lemma_entry_first(cfg, renamer, q, b, j);
                assert(self.is_first(q[a].first as int));
                assert(self.is_first(q[b].first as int));
                self.lemma_first_unique(q[a].first as int, q[b].first as int);
            } else if exists|b: int| 0 <= b < q.len() && #[trigger] self.entry_of(q[b], j) && new.sym(j) == q[b].name@ {
                let b = choose|b: int| 0 <= b < q.len() && #[trigger] self.entry_of(q[b], j) && new.sym(j) == q[b].name@;
                self.lemma_entry_first(cfg, renamer, q, b, j);
                assert(self.decl_of(q[b].first as int, i));
            }
        }
        assert forall|k: int| #[trigger] self.is_first(k) implies exists|a: int|
            0 <= a < q.len() && q[a].first == k && new.sym(k) == q[a].name@ by {
            assert(self.applied(q, new.sym(k), k));
            assert(self.decl_of(k, k));
            let a = choose|a: int| 0 <= a < q.len() && #[trigger] self.entry_of(q[a], k) && new.sym(k) == q[a].name@;
            self.lemma_entry_first(cfg, renamer, q, a, k);
            assert(q[a].first == k);
        }
        assert forall|a: int| 0 <= a < q.len() implies new.sym(#[trigger] q[a].first as int) == q[a].name@ by {
            let f = q[a].first as int;
            assert(self.is_first(f));
            let a2 = choose|a2: int| 0 <= a2 < q.len() && q[a2].first == f && new.sym(f) == q[a2].name@;
            if a2 != a {
                assert(q[a2].first != q[a].first);
            }
        }
        assert forall|k: int, l: int|
            self.is_first(k) && self.is_first(l) && k != l && !self.keeps(cfg, m, k) implies #[trigger] new.sym(k)
                != #[trigger] new.sym(l) by {
            let a = choose|a: int| 0 <= a < q.len() && q[a].first == k && new.sym(k) == q[a].name@;
            let b = choose|b: int| 0 <= b < q.len() && q[b].first == l && new.sym(l) == q[b].name@;
            assert(q[a].name@ != q[b].name@);
        }
        assert forall|k: int| #[trigger] self.is_first(k) implies {
            &&& (self.keeps(cfg, m, k) ==> new.sym(k) == self.sym(k))
            &&& (!self.keeps(cfg, m, k) ==> {
                &&& !self.has_name(new.sym(k))
                &&& first_free(renamer, self.sym(k), new.sym(k), |x: Seq<char>| self.used_before(new, cfg, k, x))
            })
        } by {
            let a = choose|a: int| 0 <= a < q.len() && q[a].first == k && new.sym(k) == q[a].name@;
            if !self.keeps(cfg, m, k) {
                assert forall|x: Seq<char>| #[trigger] self.taken_before(q, a, x) implies self.used_before(new, cfg, k, x) by {
                    if !self.has_name(x) {
                        let b = choose|b: int| 0 <= b < a && #[trigger] q[b].name@ == x;
                        assert(self.before(cfg, q[b].first as int, q[a].first as int));
                        assert(new.sym(q[b].first as int) == q[b].name@);
                        assert(self.is_first(q[b].first as int));
                    }
                }
                assert forall|l: int| #[trigger] self.is_first(l) && self.before(cfg, l, k) implies new.sym(l) != new.sym(k) by {
                    assert(new.sym(k) != new.sym(l));
                }
                lemma_first_free_mono(renamer, self.sym(k), new.sym(k),
                    |x: Seq<char>| self.taken_before(q, a, x), |x: Seq<char>| self.used_before(new, cfg, k, x));
            }
        }
    }
}

/// The entry of the queue for the identity of `id`, if there is one.
fn find_entry(q: &Vec<RenameEntry>, id: &Ident) -> (r: Option<usize>)
    ensures
        r matches Some(a) ==> a < q@.len() && q@[a as int].sym@ == id.sym@ && q@[a as int].ctxt == id.ctxt,
        r is None ==> forall|a: int| 0 <= a < q@.len() ==> !(#[trigger] q@[a].sym@ == id.sym@ && q@[a].ctxt == id.ctxt),
{
    let mut a: usize = 0;
    while a < q.len()
        invariant
            a <= q@.len(),
            forall|b: int| 0 <= b < a ==> !(#[trigger] q@[b].sym@ == id.sym@ && q@[b].ctxt == id.ctxt),
        decreases q@.len() - a,
    {
        if q[a].sym == id.sym && q[a].ctxt == id.ctxt {
            return Some(a);
        }
        a += 1;
    }
    None
}

/// Renames the bindings of `program` with the naming policy `renamer`: the
/// rename queue is computed in full first, then every occurrence is
/// rewritten from it. Hygiene contexts are left as they are.
pub fn rename<R: Renamer>(program: &mut Program, config: &Config, renamer: &R)
    requires
        old(program).wf(),
    ensures
        old(program).renamed(*final(program), *config, *renamer),
        forall|k: int| old(program).valid(k) ==> (#[trigger] final(program).idents@[k]).ctxt
            == old(program).idents@[k].ctxt,
{
    let q = program.build_queue(config, renamer);
    let ghost p0 = *program;
    let n = program.idents.len();
    let mut idents: Vec<Ident> = Vec::new();
    let mut k: usize = 0;
    while k < n
        invariant
            p0 == *program,
            p0.wf(),
            p0.queue_ok(*config, *renamer, q@),
            forall|f: int| #[trigger] p0.is_first(f) ==> exists|a: int| 0 <= a < q@.len() && q@[a].first == f,
            n == p0.idents@.len(),
            k <= n,
            idents@.len() == k,
            forall|kk: int| 0 <= kk < k ==> {
                &&& (#[trigger] idents@[kk]).ctxt == p0.idents@[kk].ctxt
                &&& idents@[kk].scope == p0.idents@[kk].scope
                &&& idents@[kk].is_binding == p0.idents@[kk].is_binding
                &&& idents@[kk].is_class == p0.idents@[kk].is_class
                &&& p0.applied(q@, idents@[kk].sym@, kk)
            },
        decreases n - k,
    {
        let cur = &program.idents[k];
        let name = match find_entry(&q, cur) {
            Some(a) => {
                assert(p0.entry_of(q@[a as int], k as int));
                q[a].name.clone()
            },
            None => {
                proof {
                    if p0.declared(k as int) {
                        let j = choose|j: int| #[trigger] p0.decl_of(j, k as int);
                        p0.lemma_first_exists(j);
                        let f = choose|f: int| p0.is_first(f) && #[trigger] p0.same_id(f, j);
                        let a = choose|a: int| 0 <= a < q@.len() && q@[a].first == f;
                        assert(q@[a].sym@ == p0.sym(q@[a].first as int) && q@[a].ctxt == p0.ctxt(q@[a].first as int));
                        assert(p0.same_id(j, k as int));
                        assert(*cur == p0.idents@[k as int]);
                        assert(q@[a].sym@ == cur.sym@ && q@[a].ctxt == cur.ctxt);
                    }
                }
                cur.sym.clone()
            },
        };
        let ghost prev = idents@;
        idents.push(
            Ident {
                sym: name,
                ctxt: cur.ctxt,
                scope: cur.scope,
                is_binding: cur.is_binding,
                is_class: cur.is_class,
            },
        );
        proof {
            assert forall|kk: int| 0 <= kk < k + 1 implies {
                &&& (#[trigger] idents@[kk]).ctxt == p0.idents@[kk].ctxt
                &&& idents@[kk].scope == p0.idents@[kk].scope
                &&& idents@[kk].is_binding == p0.idents@[kk].is_binding
                &&& idents@[kk].is_class == p0.idents@[kk].is_class
                &&& p0.applied(q@, idents@[kk].sym@, kk)
            } by {
                if kk < k {
                    assert(idents@[kk] == prev[kk]);
                }
            }
        }
        k += 1;
    }
    program.idents = idents;
    proof {
        p0.lemma_renamed(*program, *config, *renamer, q@);
    }
}

} // verus!
