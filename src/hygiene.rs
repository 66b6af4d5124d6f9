//! The hygiene pass: renaming with the hygiene policy, then clearing every
//! hygiene context.
use vstd::prelude::*;
use crate::naming::HygieneRenamer;
use crate::rename::{first_free, lemma_first_free_mono, rename};
use crate::tree::{Config, Ident, Mark, Program};

verus! {

/// A configured hygiene pass.
pub struct Hygiene {
    pub config: Config,
}

/// The hygiene pass with the default options.
pub fn hygiene() -> (r: Hygiene)
    ensures
        !r.config.keep_class_names,
        !r.config.safari_10,
        r.config.top_level_mark == Mark(0),
        !r.config.ignore_eval,
{
    hygiene_with_config(Config::default())
}

/// The hygiene pass with the options `config`. It gives different
/// identifiers (with respect to hygiene) different names (`a1` for `a#6`,
/// `a2` for `a#23`): the rename queue is computed first, then applied, then
/// every context is cleared.
pub fn hygiene_with_config(config: Config) -> (r: Hygiene)
    ensures
        r.config == config,
{
    Hygiene { config }
}

impl Program {
    /// `new` is `self` with its names unchanged and every context cleared.
    pub open spec fn stripped(&self, new: Program) -> bool {
        &&& new.scopes@ == self.scopes@
        &&& new.ctxt_marks@ == self.ctxt_marks@
        &&& new.idents@.len() == self.idents@.len()
        &&& forall|k: int| self.valid(k) ==> {
            &&& (#[trigger] new.idents@[k]).sym@ == self.idents@[k].sym@
            &&& new.idents@[k].ctxt == 0
            &&& new.idents@[k].scope == self.idents@[k].scope
            &&& new.idents@[k].is_binding == self.idents@[k].is_binding
            &&& new.idents@[k].is_class == self.idents@[k].is_class
        }
    }

    /// `new` is what the hygiene pass with `cfg` makes of `self`.
    pub open spec fn hygienic(&self, new: Program, cfg: Config) -> bool {
        &&& self.renamed(new, cfg, HygieneRenamer)
        &&& forall|k: int| self.valid(k) ==> (#[trigger] new.idents@[k]).ctxt == 0
    }
}

/// Resets the hygiene context of every occurrence to the default context;
/// names stay as they are.
pub fn strip_contexts(program: &mut Program)
    ensures
        old(program).stripped(*final(program)),
{
    let n = program.idents.len();
    let mut idents: Vec<Ident> = Vec::new();
    let mut k: usize = 0;
    while k < n
        invariant
            n == program.idents@.len(),
            k <= n,
            idents@.len() == k,
            forall|kk: int| 0 <= kk < k ==> {
                &&& (#[trigger] idents@[kk]).sym@ == program.idents@[kk].sym@
                &&& idents@[kk].ctxt == 0
                &&& idents@[kk].scope == program.idents@[kk].scope
                &&& idents@[kk].is_binding == program.idents@[kk].is_binding
                &&& idents@[kk].is_class == program.idents@[kk].is_class
            },
        decreases n - k,
    {
        let cur = &program.idents[k];
        let ghost prev = idents@;
        idents.push(
            Ident {
                sym: cur.sym.clone(),
                ctxt: 0,
                scope: cur.scope,
                is_binding: cur.is_binding,
                is_class: cur.is_class,
            },
        );
        proof {
            assert forall|kk: int| 0 <= kk < k + 1 implies {
                &&& (#[trigger] idents@[kk]).sym@ == program.idents@[kk].sym@
                &&& idents@[kk].ctxt == 0
                &&& idents@[kk].scope == program.idents@[kk].scope
                &&& idents@[kk].is_binding == program.idents@[kk].is_binding
                &&& idents@[kk].is_class == program.idents@[kk].is_class
            } by {
                if kk < k {
                    assert(idents@[kk] == prev[kk]);
                }
            }
        }
        k += 1;
    }
    program.idents = idents;
}

impl Hygiene {
    /// Runs the pass on `program`: renames with the hygiene policy, then
    /// clears every context.
    pub fn run(&self, program: &mut Program)
        requires
            old(program).wf(),
        ensures
            old(program).hygienic(*final(program), self.config),
    {
        let ghost p0 = *program;
        rename(program, &self.config, &HygieneRenamer);
        let ghost p1 = *program;
        strip_contexts(program);
        proof {
            assert forall|k: int| p0.valid(k) implies #[trigger] program.sym(k) == p1.sym(k) by {
                assert(program.idents@[k].sym@ == p1.idents@[k].sym@);
            }
            assert forall|i: int, j: int| p0.valid(i) && p0.valid(j) && p0.same_id(i, j)
                implies #[trigger] program.sym(i) == #[trigger] program.sym(j) by {
                assert(program.sym(i) == p1.sym(i));
                assert(program.sym(j) == p1.sym(j));
            }
            assert forall|k: int, l: int|
                p0.is_first(k) && p0.is_first(l) && k != l && !p0.keeps(self.config, false, k)
                implies #[trigger] program.sym(k) != #[trigger] program.sym(l) by {
                assert(program.sym(k) == p1.sym(k));
                assert(program.sym(l) == p1.sym(l));
            }
            let p2 = *program;
            assert forall|k: int| #[trigger] p0.is_first(k) && !p0.keeps(self.config, false, k) implies
                first_free(HygieneRenamer, p0.sym(k), p2.sym(k), |x: Seq<char>| p0.used_before(p2, self.config, k, x)) by {
                assert forall|x: Seq<char>| #[trigger] p0.used_before(p1, self.config, k, x) implies p0.used_before(p2, self.config, k, x) by {
                    if !p0.has_name(x) {
                        let l = choose|l: int| p0.is_first(l) && p0.before(self.config, l, k) && #[trigger] p1.sym(l) == x;
                        assert(p2.sym(l) == p1.sym(l));
                    }
                }
                assert forall|l: int| p0.is_first(l) && p0.before(self.config, l, k) implies #[trigger] p2.sym(l) != p2.sym(k) by {
                    assert(p2.sym(l) == p1.sym(l));
                    assert(p1.sym(k) != p1.sym(l));
                }
                lemma_first_free_mono(HygieneRenamer, p0.sym(k), p2.sym(k),
                    |x: Seq<char>| p0.used_before(p1, self.config, k, x), |x: Seq<char>| p0.used_before(p2, self.config, k, x));
            }
        }
    }
}

} // verus!
