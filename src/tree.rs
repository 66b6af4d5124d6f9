//! The program model: a tree of scopes, and the identifier occurrences that
//! stand in them, each with its name and hygiene context.
use vstd::prelude::*;

verus! {

/// A hygiene mark: an opaque token handed out upstream. `Mark(0)` is the
/// root mark.
#[derive(Clone, Copy, Debug, PartialEq, Eq, Structural)]
pub struct Mark(pub u32);

/// The options of the pass.
#[derive(Clone, Copy, Debug)]
pub struct Config {
    /// Class bindings keep their names.
    pub keep_class_names: bool,
    /// Accepted and ignored: no longer needed to work around Safari 10.
    pub safari_10: bool,
    /// Contexts whose outer mark is this one count as written by the user;
    /// the others as generated by the compiler.
    pub top_level_mark: Mark,
    /// Mangle even bindings that `eval` or `with` can see.
    pub ignore_eval: bool,
}

impl Default for Config {
    fn default() -> (r: Config)
        ensures
            !r.keep_class_names,
            !r.safari_10,
            r.top_level_mark == Mark(0),
            !r.ignore_eval,
    {
        Config { keep_class_names: false, safari_10: false, top_level_mark: Mark(0), ignore_eval: false }
    }
}

/// A scope: a function body, block, arrow body, catch clause and the like.
#[derive(Clone, Copy, Debug)]
pub struct Scope {
    /// The enclosing scope; the root scope (index 0) names itself.
    pub parent: usize,
    /// The scope holds a construct (`eval`, `with`) that looks names up at
    /// run time.
    pub has_eval: bool,
}

/// One occurrence of an identifier: a binding site or a reference.
#[derive(Clone, Debug)]
pub struct Ident {
    pub sym: String,
    /// The hygiene context; 0 is the default context.
    pub ctxt: u32,
    /// The scope the occurrence stands in.
    pub scope: usize,
    pub is_binding: bool,
    /// The binding declares a class.
    pub is_class: bool,
}

/// A program: its scopes, the outer mark of each hygiene context, and its
/// identifier occurrences in source order.
#[derive(Clone, Debug)]
pub struct Program {
    pub scopes: Vec<Scope>,
    /// `ctxt_marks[c]` is the outer mark of context `c`.
    pub ctxt_marks: Vec<u32>,
    pub idents: Vec<Ident>,
}

impl Program {
    /// Scope 0 is the root, every other scope's parent comes before it, and
    /// every occurrence stands in a scope of the program. The occurrences
    /// number under a quarter of `usize::MAX`, so that their names and the
    /// new names together can be listed and counted.
    pub open spec fn wf(&self) -> bool {
        &&& self.scopes@.len() > 0
        &&& forall|s: int| 0 < s < self.scopes@.len() ==> #[trigger] self.scopes@[s].parent < s
        &&& forall|k: int| 0 <= k < self.idents@.len() ==> #[trigger] self.idents@[k].scope
            < self.scopes@.len()
        &&& self.idents@.len() < usize::MAX / 4
    }

    pub open spec fn parent(&self, s: int) -> int {
        self.scopes@[s].parent as int
    }

    /// Scope `s` is `t` or encloses it.
    pub open spec fn anc(&self, s: int, t: int) -> bool
        decreases t,
    {
        if s == t {
            true
        } else if 0 < t && 0 <= self.parent(t) < t {
            self.anc(s, self.parent(t))
        } else {
            false
        }
    }

    /// One of the scopes encloses the other: what is declared in both is
    /// visible together somewhere.
    pub open spec fn related(&self, s: int, t: int) -> bool {
        self.anc(s, t) || self.anc(t, s)
    }

    pub open spec fn sym(&self, k: int) -> Seq<char> {
        self.idents@[k].sym@
    }

    pub open spec fn ctxt(&self, k: int) -> u32 {
        self.idents@[k].ctxt
    }

    pub open spec fn binding(&self, k: int) -> bool {
        self.idents@[k].is_binding
    }

    pub open spec fn scope_of(&self, k: int) -> int {
        self.idents@[k].scope as int
    }

    pub open spec fn valid(&self, k: int) -> bool {
        0 <= k < self.idents@.len()
    }

    /// The two occurrences denote the same binding identity: same name, same
    /// context.
    pub open spec fn same_id(&self, i: int, j: int) -> bool {
        self.sym(i) == self.sym(j) && self.ctxt(i) == self.ctxt(j)
    }

    /// Occurrence `j` is a binding site of the identity of `k`.
    pub open spec fn decl_of(&self, j: int, k: int) -> bool {
        self.valid(j) && self.binding(j) && self.same_id(j, k)
    }

    /// The identity of `k` is declared somewhere in the program.
    pub open spec fn declared(&self, k: int) -> bool {
        exists|j: int| #[trigger] self.decl_of(j, k)
    }

    /// `k` is the first binding site of its identity.
    pub open spec fn is_first(&self, k: int) -> bool {
        &&& self.valid(k)
        &&& self.binding(k)
        &&& forall|j: int| 0 <= j < k ==> !#[trigger] self.decl_of(j, k)
    }

    pub open spec fn overlap_at(&self, j: int, k: int, a: int, b: int) -> bool {
        self.decl_of(a, j) && self.decl_of(b, k) && self.related(self.scope_of(a), self.scope_of(b))
    }

    /// Some binding site of `j` and some binding site of `k` are visible
    /// together.
    pub open spec fn overlap(&self, j: int, k: int) -> bool {
        exists|a: int, b: int| #[trigger] self.overlap_at(j, k, a, b)
    }

    /// `r` is a reference to no binding of the program.
    pub open spec fn free_ref(&self, r: int) -> bool {
        self.valid(r) && !self.binding(r) && !self.declared(r)
    }

    pub open spec fn captures_at(&self, k: int, a: int, r: int) -> bool {
        &&& self.decl_of(a, k)
        &&& self.free_ref(r)
        &&& self.sym(r) == self.sym(k)
        &&& self.anc(self.scope_of(a), self.scope_of(r))
    }

    /// Keeping the name of `k` would capture a free reference of that name.
    pub open spec fn captures(&self, k: int) -> bool {
        exists|a: int, r: int| #[trigger] self.captures_at(k, a, r)
    }

    pub open spec fn exposed_at(&self, k: int, a: int, e: int) -> bool {
        &&& self.decl_of(a, k)
        &&& 0 <= e < self.scopes@.len()
        &&& self.scopes@[e].has_eval
        &&& self.anc(self.scope_of(a), e)
    }

    /// A run-time name lookup can see a binding site of `k`.
    pub open spec fn exposed(&self, k: int) -> bool {
        exists|a: int, e: int| #[trigger] self.exposed_at(k, a, e)
    }

    /// The context of `k` traces back to the user's top-level mark.
    pub open spec fn user(&self, cfg: Config, k: int) -> bool {
        let c = self.ctxt(k) as int;
        0 <= c < self.ctxt_marks@.len() && self.ctxt_marks@[c] == cfg.top_level_mark.0
    }

    pub open spec fn kept_class(&self, cfg: Config, k: int) -> bool {
        cfg.keep_class_names && self.idents@[k].is_class
    }

    /// Priority for keeping a name: kept classes first, then the user's
    /// bindings, then generated ones.
    pub open spec fn tier(&self, cfg: Config, k: int) -> int {
        if self.kept_class(cfg, k) {
            0
        } else if self.user(cfg, k) {
            1
        } else {
            2
        }
    }

    /// `j` is considered before `k`: by tier, then by declaration order.
    pub open spec fn before(&self, cfg: Config, j: int, k: int) -> bool {
        self.tier(cfg, j) < self.tier(cfg, k) || (self.tier(cfg, j) == self.tier(cfg, k) && j < k)
    }

    /// Under a mangling policy, `k` is renamed whether it collides or not.
    pub open spec fn wants_mangle(&self, cfg: Config, mangle: bool, k: int) -> bool {
        mangle && !self.kept_class(cfg, k) && !(self.exposed(k) && !cfg.ignore_eval)
    }

    /// `j`, a binding that keeps its name if it can, was considered before
    /// `k` and has `k`'s name where `k` is visible.
    pub open spec fn blocks(&self, cfg: Config, mangle: bool, j: int, k: int) -> bool {
        &&& self.is_first(j)
        &&& j != k
        &&& self.sym(j) == self.sym(k)
        &&& !self.wants_mangle(cfg, mangle, j)
        &&& self.before(cfg, j, k)
        &&& self.overlap(j, k)
    }

    /// The first binding site `k` keeps its identity's original name.
    pub open spec fn keeps(&self, cfg: Config, mangle: bool, k: int) -> bool {
        &&& !self.wants_mangle(cfg, mangle, k)
        &&& forall|j: int| !#[trigger] self.blocks(cfg, mangle, j, k)
        &&& !self.captures(k)
    }

    /// Some occurrence of the program has this name.
    pub open spec fn has_name(&self, s: Seq<char>) -> bool {
        exists|k: int| self.valid(k) && #[trigger] self.sym(k) == s
    }
}

} // verus!
