//! Conflict analysis: the executable counterparts of the predicates of
//! `tree`, each computing its predicate exactly.
use vstd::prelude::*;
use crate::tree::{Config, Program};

verus! {

impl Program {
    /// Whether scope `s` is `t` or encloses it.
    pub fn is_ancestor(&self, s: usize, t: usize) -> (r: bool)
        requires
            self.wf(),
            s < self.scopes@.len(),
            t < self.scopes@.len(),
        ensures
            r == self.anc(s as int, t as int),
    {
        let mut cur: usize = t;
        while cur != s && cur != 0
            invariant
                self.wf(),
                cur < self.scopes@.len(),
                s < self.scopes@.len(),
                self.anc(s as int, t as int) == self.anc(s as int, cur as int),
            decreases cur,
        {
            assert(self.scopes@[cur as int].parent < cur);
            cur = self.scopes[cur].parent;
        }
        cur == s
    }

    fn same_id_exec(&self, i: usize, j: usize) -> (r: bool)
        requires
            i < self.idents@.len(),
            j < self.idents@.len(),
        ensures
            r == self.same_id(i as int, j as int),
    {
        self.idents[i].sym == self.idents[j].sym && self.idents[i].ctxt == self.idents[j].ctxt
    }

    fn is_declared(&self, k: usize) -> (r: bool)
        requires
            k < self.idents@.len(),
        ensures
            r == self.declared(k as int),
    {
        let mut j: usize = 0;
        while j < self.idents.len()
            invariant
                j <= self.idents@.len(),
                k < self.idents@.len(),
                forall|jj: int| 0 <= jj < j ==> !#[trigger] self.decl_of(jj, k as int),
            decreases self.idents@.len() - j,
        {
            if self.idents[j].is_binding && self.same_id_exec(j, k) {
                assert(self.decl_of(j as int, k as int));
                return true;
            }
            j += 1;
        }
        false
    }

    pub(crate) fn is_first_exec(&self, k: usize) -> (r: bool)
        requires
            k < self.idents@.len(),
        ensures
            r == self.is_first(k as int),
    {
        if !self.idents[k].is_binding {
            return false;
        }
        let mut j: usize = 0;
        while j < k
            invariant
                j <= k,
                k < self.idents@.len(),
                forall|jj: int| 0 <= jj < j ==> !#[trigger] self.decl_of(jj, k as int),
            decreases k - j,
        {
            if self.idents[j].is_binding && self.same_id_exec(j, k) {
                assert(self.decl_of(j as int, k as int));
                return false;
            }
            j += 1;
        }
        true
    }

    fn overlap_exec(&self, j: usize, k: usize) -> (r: bool)
        requires
            self.wf(),
            j < self.idents@.len(),
            k < self.idents@.len(),
        ensures
            r == self.overlap(j as int, k as int),
    {
        let n = self.idents.len();
        let mut a: usize = 0;
        while a < n
            invariant
                self.wf(),
                n == self.idents@.len(),
                a <= n,
                j < n,
                k < n,
                forall|aa: int, bb: int|
                    0 <= aa < a ==> !#[trigger] self.overlap_at(j as int, k as int, aa, bb),
            decreases n - a,
        {
            if self.idents[a].is_binding && self.same_id_exec(a, j) {
                let sa = self.idents[a].scope;
                let mut b: usize = 0;
                while b < n
                    invariant
                        self.wf(),
                        n == self.idents@.len(),
                        a < n,
                        b <= n,
                        j < n,
                        k < n,
                        sa == self.idents@[a as int].scope,
                        self.decl_of(a as int, j as int),
                        forall|bb: int|
                            0 <= bb < b ==> !#[trigger] self.overlap_at(j as int, k as int, a as int, bb),
                    decreases n - b,
                {
                    if self.idents[b].is_binding && self.same_id_exec(b, k) {
                        let sb = self.idents[b].scope;
                        if self.is_ancestor(sa, sb) || self.is_ancestor(sb, sa) {
                            assert(self.overlap_at(j as int, k as int, a as int, b as int));
                            return true;
                        }
                    }
                    b += 1;
                }
            }
            a += 1;
        }
        false
    }

    fn captures_exec(&self, k: usize) -> (r: bool)
        requires
            self.wf(),
            k < self.idents@.len(),
        ensures
            r == self.captures(k as int),
    {
        let n = self.idents.len();
        let mut a: usize = 0;
        while a < n
            invariant
                self.wf(),
                n == self.idents@.len(),
                a <= n,
                k < n,
                forall|aa: int, rr: int| 0 <= aa < a ==> !#[trigger] self.captures_at(k as int, aa, rr),
            decreases n - a,
        {
            if self.idents[a].is_binding && self.same_id_exec(a, k) {
                let sa = self.idents[a].scope;
                let mut r: usize = 0;
                while r < n
                    invariant
                        self.wf(),
                        n == self.idents@.len(),
                        a < n,
                        r <= n,
                        k < n,
                        sa == self.idents@[a as int].scope,
                        self.decl_of(a as int, k as int),
                        forall|rr: int| 0 <= rr < r ==> !#[trigger] self.captures_at(k as int, a as int, rr),
                    decreases n - r,
                {
                    if !self.idents[r].is_binding && self.idents[r].sym == self.idents[k].sym
                        && self.is_ancestor(sa, self.idents[r].scope) && !self.is_declared(r) {
                        assert(self.captures_at(k as int, a as int, r as int));
                        return true;
                    }
                    r += 1;
                }
            }
            a += 1;
        }
        false
    }

    fn exposed_exec(&self, k: usize) -> (r: bool)
        requires
            self.wf(),
            k < self.idents@.len(),
        ensures
            r == self.exposed(k as int),
    {
        let n = self.idents.len();
        let m = self.scopes.len();
        let mut a: usize = 0;
        while a < n
            invariant
                self.wf(),
                n == self.idents@.len(),
                m == self.scopes@.len(),
                a <= n,
                k < n,
                forall|aa: int, e: int| 0 <= aa < a ==> !#[trigger] self.exposed_at(k as int, aa, e),
            decreases n - a,
        {
            if self.idents[a].is_binding && self.same_id_exec(a, k) {
                let sa = self.idents[a].scope;
                let mut e: usize = 0;
                while e < m
                    invariant
                        self.wf(),
                        n == self.idents@.len(),
                        m == self.scopes@.len(),
                        a < n,
                        e <= m,
                        k < n,
                        sa == self.idents@[a as int].scope,
                        self.decl_of(a as int, k as int),
                        forall|ee: int| 0 <= ee < e ==> !#[trigger] self.exposed_at(k as int, a as int, ee),
                    decreases m - e,
                {
                    if self.scopes[e].has_eval && self.is_ancestor(sa, e) {
                        assert(self.exposed_at(k as int, a as int, e as int));
                        return true;
                    }
                    e += 1;
                }
            }
            a += 1;
        }
        false
    }

    pub(crate) fn tier_exec(&self, cfg: &Config, k: usize) -> (r: u8)
        requires
            k < self.idents@.len(),
        ensures
            r as int == self.tier(*cfg, k as int),
    {
        if cfg.keep_class_names && self.idents[k].is_class {
            0
        } else {
            let c = self.idents[k].ctxt as usize;
            if c < self.ctxt_marks.len() && self.ctxt_marks[c] == cfg.top_level_mark.0 {
                1
            } else {
                2
            }
        }
    }

    fn wants_mangle_exec(&self, cfg: &Config, mangle: bool, k: usize) -> (r: bool)
        requires
            self.wf(),
            k < self.idents@.len(),
        ensures
            r == self.wants_mangle(*cfg, mangle, k as int),
    {
        mangle && !(cfg.keep_class_names && self.idents[k].is_class) && !(self.exposed_exec(k)
            && !cfg.ignore_eval)
    }

    fn blocks_exec(&self, cfg: &Config, mangle: bool, j: usize, k: usize) -> (r: bool)
        requires
            self.wf(),
            j < self.idents@.len(),
            k < self.idents@.len(),
        ensures
            r == self.blocks(*cfg, mangle, j as int, k as int),
    {
        if !(j != k && self.idents[j].sym == self.idents[k].sym) {
            return false;
        }
        let tj = self.tier_exec(cfg, j);
        let tk = self.tier_exec(cfg, k);
        if !(tj < tk || (tj == tk && j < k)) {
            return false;
        }
        self.is_first_exec(j) && !self.wants_mangle_exec(cfg, mangle, j) && self.overlap_exec(j, k)
    }

    /// Whether the first binding site `k` keeps its original name.
    pub fn keeps_exec(&self, cfg: &Config, mangle: bool, k: usize) -> (r: bool)
        requires
            self.wf(),
            k < self.idents@.len(),
        ensures
            r == self.keeps(*cfg, mangle, k as int),
    {
        if self.wants_mangle_exec(cfg, mangle, k) {
            return false;
        }
        let n = self.idents.len();
        let mut j: usize = 0;
        while j < n
            invariant
                self.wf(),
                n == self.idents@.len(),
                j <= n,
                k < n,
                forall|jj: int| 0 <= jj < j ==> !#[trigger] self.blocks(*cfg, mangle, jj, k as int),
            decreases n - j,
        {
            if self.blocks_exec(cfg, mangle, j, k) {
                return false;
            }
            j += 1;
        }
        !self.captures_exec(k)
    }
}

} // verus!
