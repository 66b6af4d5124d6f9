//! Naming policies: what name a binding receives on its `n`-th request.
use vstd::prelude::*;
use vstd::string::*;

verus! {

/// The decimal digit for `d < 10`.
pub open spec fn digit(d: nat) -> char {
    seq!['0', '1', '2', '3', '4', '5', '6', '7', '8', '9'][d as int]
}

/// The decimal representation of `n`, without sign or leading zeros.
pub open spec fn decimal(n: nat) -> Seq<char>
    decreases n,
{
    if n < 10 {
        seq![digit(n)]
    } else {
        decimal(n / 10).push(digit(n % 10))
    }
}

/// Relies on `format!` with std's `Display` for `String` and `usize`: the
/// string itself followed by the number in decimal.
#[verifier::external_body]
fn append_number(s: &String, n: usize) -> (r: String)
    ensures
        r@ == s@ + decimal(n as nat),
{
    format!("{}{}", s, n)
}

pub proof fn lemma_decimal_len(n: nat)
    ensures
        decimal(n).len() >= 1,
        n >= 10 ==> decimal(n).len() >= 2,
    decreases n,
{
    if n >= 10 {
        lemma_decimal_len(n / 10);
    }
}

proof fn lemma_digit_injective(a: nat, b: nat)
    requires
        a < 10,
        b < 10,
        digit(a) == digit(b),
    ensures
        a == b,
{
    let ds = seq!['0', '1', '2', '3', '4', '5', '6', '7', '8', '9'];
    assert(ds[0] == '0' && ds[1] == '1' && ds[2] == '2' && ds[3] == '3' && ds[4] == '4');
    assert(ds[5] == '5' && ds[6] == '6' && ds[7] == '7' && ds[8] == '8' && ds[9] == '9');
}

/// Distinct numbers have distinct decimal representations.
pub proof fn lemma_decimal_injective(a: nat, b: nat)
    requires
        decimal(a) == decimal(b),
    ensures
        a == b,
    decreases a,
{
    lemma_decimal_len(a / 10);
    lemma_decimal_len(b / 10);
    if a < 10 && b < 10 {
        assert(decimal(a) == seq![digit(a)]);
        assert(decimal(b) == seq![digit(b)]);
        assert(seq![digit(a)][0] == digit(a));
        assert(seq![digit(b)][0] == digit(b));
        lemma_digit_injective(a, b);
    } else if a >= 10 && b >= 10 {
        let da = decimal(a / 10).push(digit(a % 10));
        let db = decimal(b / 10).push(digit(b % 10));
        assert(da.last() == db.last());
        assert(da.drop_last() =~= decimal(a / 10));
        assert(db.drop_last() =~= decimal(b / 10));
        lemma_digit_injective(a % 10, b % 10);
        lemma_decimal_injective(a / 10, b / 10);
    } else {
        lemma_decimal_len(a);
        lemma_decimal_len(b);
    }
}

/// A naming policy. It answers, for an original name and a per-name
/// counter, the next candidate name, and advances the counter. Distinct
/// counter values give distinct candidates for one original name.
pub trait Renamer {
    /// Whether every binding is renamed, collision or not.
    spec fn spec_mangle(&self) -> bool;

    /// The candidate for `orig` at counter value `n`.
    spec fn spec_name(&self, orig: Seq<char>, n: nat) -> Seq<char>;

    proof fn lemma_name_injective(&self, orig: Seq<char>, a: nat, b: nat)
        requires
            self.spec_name(orig, a) == self.spec_name(orig, b),
        ensures
            a == b,
    ;

    fn mangle(&self) -> (r: bool)
        ensures
            r == self.spec_mangle(),
    ;

    fn new_name_for(&self, orig: &String, n: &mut usize) -> (r: String)
        requires
            *old(n) < usize::MAX,
        ensures
            r@ == self.spec_name(orig@, *old(n) as nat),
            *final(n) == *old(n) + 1,
    ;
}

/// The name the hygiene policy gives on counter value `n`: the original
/// name first, then the original name with `n` appended.
pub open spec fn hygiene_name(orig: Seq<char>, n: nat) -> Seq<char> {
    if n == 0 {
        orig
    } else {
        orig + decimal(n)
    }
}

/// Keeps names readable: the original name unchanged the first time, then
/// with a numeric suffix.
pub struct HygieneRenamer;

impl Renamer for HygieneRenamer {
    open spec fn spec_mangle(&self) -> bool {
        false
    }

    open spec fn spec_name(&self, orig: Seq<char>, n: nat) -> Seq<char> {
        hygiene_name(orig, n)
    }

    proof fn lemma_name_injective(&self, orig: Seq<char>, a: nat, b: nat) {
        lemma_decimal_len(a);
        lemma_decimal_len(b);
        if a != 0 && b != 0 {
            assert((orig + decimal(a)).subrange(orig.len() as int, (orig + decimal(a)).len() as int)
                =~= decimal(a));
            assert((orig + decimal(b)).subrange(orig.len() as int, (orig + decimal(b)).len() as int)
                =~= decimal(b));
            lemma_decimal_injective(a, b);
        }
    }

    fn mangle(&self) -> (r: bool) {
        false
    }

    fn new_name_for(&self, orig: &String, n: &mut usize) -> (r: String) {
        let res = if *n == 0 {
            orig.clone()
        } else {
            append_number(orig, *n)
        };
        *n = *n + 1;
        res
    }
}

/// The name the mangling policy gives on counter value `n`: an underscore
/// and `n`, whatever the original name.
pub open spec fn mangled_name(n: nat) -> Seq<char> {
    seq!['_'] + decimal(n)
}

/// Replaces every binding's name by a short generated one.
pub struct MangleRenamer;

impl Renamer for MangleRenamer {
    open spec fn spec_mangle(&self) -> bool {
        true
    }

    open spec fn spec_name(&self, orig: Seq<char>, n: nat) -> Seq<char> {
        mangled_name(n)
    }

    proof fn lemma_name_injective(&self, orig: Seq<char>, a: nat, b: nat) {
        assert(mangled_name(a).subrange(1, mangled_name(a).len() as int) =~= decimal(a));
        assert(mangled_name(b).subrange(1, mangled_name(b).len() as int) =~= decimal(b));
        lemma_decimal_injective(a, b);
    }

    fn mangle(&self) -> (r: bool) {
        true
    }

    fn new_name_for(&self, orig: &String, n: &mut usize) -> (r: String) {
        let prefix = String::from_str("_");
        proof {
            reveal_strlit("_");
        }
        let res = append_number(&prefix, *n);
        *n = *n + 1;
        res
    }
}

} // verus!
