//! What holds of every rename: the names that bindings end up with, stated
//! over the contract of `rename` and of the hygiene pass.
use vstd::prelude::*;
use crate::naming::{HygieneRenamer, Renamer};
use crate::tree::{Config, Program};

verus! {

/// Two binding sites of different identities whose scopes are visible
/// together end up with different names.
pub proof fn law_unique<R: Renamer>(p: Program, new: Program, cfg: Config, renamer: R, i: int, j: int)
    requires
        p.wf(),
        p.renamed(new, cfg, renamer),
        p.valid(i),
        p.valid(j),
        p.binding(i),
        p.binding(j),
        !p.same_id(i, j),
        p.related(p.scope_of(i), p.scope_of(j)),
    ensures
        new.sym(i) != new.sym(j),
{
    let m = renamer.spec_mangle();
    p.lemma_first_exists(i);
    p.lemma_first_exists(j);
    let fi = choose|f: int| p.is_first(f) && #[trigger] p.same_id(f, i);
    let fj = choose|f: int| p.is_first(f) && #[trigger] p.same_id(f, j);
    assert(new.sym(fi) == new.sym(i));
    assert(new.sym(fj) == new.sym(j));
    assert(fi != fj);
    assert(p.overlap_at(fi, fj, i, j));
    assert(p.overlap_at(fj, fi, j, i));
    if p.keeps(cfg, m, fi) && p.keeps(cfg, m, fj) && p.sym(fi) == p.sym(fj) {
        if p.before(cfg, fi, fj) {
            assert(p.blocks(cfg, m, fi, fj));
        } else {
            assert(p.blocks(cfg, m, fj, fi));
        }
    } else if !p.keeps(cfg, m, fi) {
        assert(new.sym(fi) != new.sym(fj));
    } else if !p.keeps(cfg, m, fj) {
        assert(new.sym(fj) != new.sym(fi));
    }
}

/// Under the hygiene policy, a binding whose name no other binding visible
/// with it shares, and that would capture no free reference, keeps its
/// name at every occurrence.
pub proof fn law_keeps_name(p: Program, new: Program, cfg: Config, k: int, l: int)
    requires
        p.wf(),
        p.renamed(new, cfg, HygieneRenamer),
        p.is_first(k),
        forall|j: int| #[trigger] p.is_first(j) && j != k && p.sym(j) == p.sym(k) ==> !p.overlap(j, k),
        !p.captures(k),
        p.valid(l),
        p.same_id(l, k),
    ensures
        new.sym(l) == p.sym(l),
{
    assert forall|j: int| !#[trigger] p.blocks(cfg, false, j, k) by {
        if p.blocks(cfg, false, j, k) {
            assert(p.is_first(j));
        }
    }
    assert(p.keeps(cfg, false, k));
    assert(new.sym(l) == new.sym(k));
}

/// Every occurrence of one identity, binding site or reference, ends up
/// with the same name.
pub proof fn law_consistent<R: Renamer>(p: Program, new: Program, cfg: Config, renamer: R, i: int, j: int)
    requires
        p.renamed(new, cfg, renamer),
        p.valid(i),
        p.valid(j),
        p.same_id(i, j),
    ensures
        new.sym(i) == new.sym(j),
{
}

/// On a program without hygiene contexts the hygiene pass renames nothing.
pub proof fn law_fixed_point(p: Program, new: Program, cfg: Config, k: int)
    requires
        p.wf(),
        p.renamed(new, cfg, HygieneRenamer),
        forall|j: int| p.valid(j) ==> #[trigger] p.ctxt(j) == 0,
        p.valid(k),
    ensures
        new.sym(k) == p.sym(k),
{
    if p.declared(k) {
        let j = choose|j: int| #[trigger] p.decl_of(j, k);
        p.lemma_first_exists(j);
        let f = choose|f: int| p.is_first(f) && #[trigger] p.same_id(f, j);
        assert forall|b: int| !#[trigger] p.blocks(cfg, false, b, f) by {
            if p.blocks(cfg, false, b, f) {
                assert(p.ctxt(b) == 0 && p.ctxt(f) == 0);
                p.lemma_first_unique(b, f);
            }
        }
        assert forall|a: int, r: int| !#[trigger] p.captures_at(f, a, r) by {
            if p.captures_at(f, a, r) {
                assert(p.ctxt(r) == 0 && p.ctxt(f) == 0);
                assert(p.decl_of(f, r));
            }
        }
        assert(p.keeps(cfg, false, f));
        assert(new.sym(k) == new.sym(f));
    }
}

/// Running the hygiene pass on its own output renames nothing and changes
/// no context.
pub proof fn law_idempotent(p: Program, once: Program, twice: Program, cfg: Config, k: int)
    requires
        p.wf(),
        p.hygienic(once, cfg),
        once.hygienic(twice, cfg),
        p.valid(k),
    ensures
        twice.sym(k) == once.sym(k),
        twice.ctxt(k) == once.ctxt(k),
{
    assert forall|s: int| 0 < s < once.scopes@.len() implies #[trigger] once.scopes@[s].parent < s by {
        assert(once.scopes@[s] == p.scopes@[s]);
    }
    assert forall|j: int| 0 <= j < once.idents@.len() implies #[trigger] once.idents@[j].scope
        < once.scopes@.len() by {
        assert(once.idents@[j].scope == p.idents@[j].scope);
    }
    assert(once.wf());
    assert forall|j: int| once.valid(j) implies #[trigger] once.ctxt(j) == 0 by {
        assert(once.idents@[j].ctxt == 0);
    }
    law_fixed_point(once, twice, cfg, k);
    assert(twice.idents@[k].ctxt == 0);
    assert(once.idents@[k].ctxt == 0);
}

/// With `keep_class_names`, a class binding keeps its name against a
/// non-class binding of the same name visible with it, which is renamed
/// instead; this holds where no other class binding of that name is
/// visible with it and it would capture no free reference.
pub proof fn law_keep_class_names<R: Renamer>(p: Program, new: Program, cfg: Config, renamer: R, c: int, o: int)
    requires
        p.wf(),
        p.renamed(new, cfg, renamer),
        cfg.keep_class_names,
        p.is_first(c),
        p.idents@[c].is_class,
        p.is_first(o),
        !p.idents@[o].is_class,
        o != c,
        p.sym(o) == p.sym(c),
        p.overlap(c, o),
        forall|j: int|
            #[trigger] p.is_first(j) && j != c && p.idents@[j].is_class && p.sym(j) == p.sym(c) ==> !p.overlap(j, c),
        !p.captures(c),
    ensures
        new.sym(c) == p.sym(c),
        new.sym(o) != p.sym(o),
{
    let m = renamer.spec_mangle();
    assert forall|j: int| !#[trigger] p.blocks(cfg, m, j, c) by {
        if p.blocks(cfg, m, j, c) {
            assert(p.is_first(j));
        }
    }
    assert(p.keeps(cfg, m, c));
    assert(p.blocks(cfg, m, c, o));
    assert(!p.keeps(cfg, m, o));
    assert(p.valid(o));
}

} // verus!
