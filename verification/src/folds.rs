//! Facts about left folds that stop at the first error.
use vstd::prelude::*;

verus! {

/// One more element extends a left fold by one step.
pub proof fn lemma_fold_take_step<A, B>(s: Seq<A>, b: B, f: spec_fn(B, A) -> B, i: int)
    requires
        0 <= i < s.len(),
    ensures
        s.take(i + 1).fold_left(b, f) == f(s.take(i).fold_left(b, f), s[i]),
{
    assert(s.take(i + 1).drop_last() =~= s.take(i));
}

/// The whole sequence is the prefix of its own length.
pub proof fn lemma_fold_take_all<A, B>(s: Seq<A>, b: B, f: spec_fn(B, A) -> B)
    ensures
        s.take(s.len() as int).fold_left(b, f) == s.fold_left(b, f),
{
    assert(s.take(s.len() as int) =~= s);
}

/// A step function that leaves every error unchanged.
pub open spec fn keeps_errors<A, T, E>(f: spec_fn(Result<T, E>, A) -> Result<T, E>) -> bool {
    forall|e: E, a: A| #[trigger] f(Err(e), a) == Err::<T, E>(e)
}

/// Once a fold whose steps keep errors has failed on a prefix, the whole
/// fold ends in that error.
pub proof fn lemma_fold_error_sticks<A, T, E>(
    s: Seq<A>,
    b: Result<T, E>,
    f: spec_fn(Result<T, E>, A) -> Result<T, E>,
    i: int,
)
    requires
        0 <= i <= s.len(),
        keeps_errors(f),
        s.take(i).fold_left(b, f) is Err,
    ensures
        s.fold_left(b, f) == s.take(i).fold_left(b, f),
    decreases s.len() - i,
{
    if i == s.len() {
        lemma_fold_take_all(s, b, f);
    } else {
        lemma_fold_take_step(s, b, f, i);
        let e = s.take(i).fold_left(b, f)->Err_0;
        assert(f(Err(e), s[i]) == Err::<T, E>(e));
        lemma_fold_error_sticks(s, b, f, i + 1);
    }
}

} // verus!
