use vstd::prelude::*;
use crate::error::VoleError;

verus! {

/// The first `n` items of `f` in order, or the error of the first item that fails.
pub open spec fn collect<T>(f: spec_fn(int) -> Result<T, VoleError>, n: nat) -> Result<Seq<T>, VoleError>
    decreases n,
{
    if n == 0 {
        Ok(Seq::empty())
    } else {
        match collect(f, (n - 1) as nat) {
            Err(e) => Err(e),
            Ok(ps) => match f(n - 1) {
                Err(e) => Err(e),
                Ok(p) => Ok(ps.push(p)),
            },
        }
    }
}

/// Once a prefix has failed, every longer prefix fails with the same error.
pub proof fn lemma_collect_err<T>(f: spec_fn(int) -> Result<T, VoleError>, i: nat, n: nat)
    requires
        i <= n,
        collect(f, i).is_err(),
    ensures
        collect(f, n) == collect(f, i),
    decreases n,
{
    if i < n {
        lemma_collect_err(f, i, (n - 1) as nat);
    }
}

/// A prefix that succeeds holds the items in order, and every item of it succeeded.
pub proof fn lemma_collect_ok<T>(f: spec_fn(int) -> Result<T, VoleError>, n: nat)
    requires
        collect(f, n).is_ok(),
    ensures
        collect(f, n).unwrap().len() == n,
        forall|i: int| 0 <= i < n ==> (#[trigger] f(i)).is_ok() && collect(f, n).unwrap()[i] == f(i).unwrap(),
    decreases n,
{
    if n > 0 {
        lemma_collect_ok(f, (n - 1) as nat);
    }
}

/// Where every item succeeds, the prefix succeeds.
pub proof fn lemma_collect_all_ok<T>(f: spec_fn(int) -> Result<T, VoleError>, n: nat)
    requires
        forall|i: int| 0 <= i < n ==> (#[trigger] f(i)).is_ok(),
    ensures
        collect(f, n).is_ok(),
    decreases n,
{
    if n > 0 {
        lemma_collect_all_ok(f, (n - 1) as nat);
    }
}

/// Two item functions that agree below `n` give the same prefix.
pub proof fn lemma_collect_ext<T>(
    f: spec_fn(int) -> Result<T, VoleError>,
    g: spec_fn(int) -> Result<T, VoleError>,
    n: nat,
)
    requires
        forall|i: int| 0 <= i < n ==> #[trigger] f(i) == #[trigger] g(i),
    ensures
        collect(f, n) == collect(g, n),
    decreases n,
{
    if n > 0 {
        lemma_collect_ext(f, g, (n - 1) as nat);
    }
}

} // verus!
