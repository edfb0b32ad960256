use crate::basic_reading::{agree, lemma_agree_subrange};
use crate::errors::Failure;
use vstd::prelude::*;

verus! {

/// Reads `n` items one after the other from the start of `s`, each with
/// `item`, which gives an item and the number of bytes it takes. Gives the
/// items and the number of bytes they take together, or the first failure.
pub open spec fn spec_repeat<T>(
    s: Seq<u8>,
    n: nat,
    item: spec_fn(Seq<u8>) -> Result<(T, nat), Failure>,
) -> Result<(Seq<T>, nat), Failure>
    decreases n,
{
    if n == 0 {
        Ok((Seq::empty(), 0))
    } else {
        match spec_repeat(s, (n - 1) as nat, item) {
            Ok((xs, m)) => match item(s.skip(m as int)) {
                Ok((x, k)) => Ok((xs.push(x), m + k)),
                Err(e) => Err(e),
            },
            Err(e) => Err(e),
        }
    }
}

/// Once reading a list fails, reading a longer list fails the same way.
pub proof fn lemma_repeat_err_stays<T>(
    s: Seq<u8>,
    i: nat,
    n: nat,
    item: spec_fn(Seq<u8>) -> Result<(T, nat), Failure>,
)
    requires
        i <= n,
        spec_repeat(s, i, item) is Err,
    ensures
        spec_repeat(s, n, item) == spec_repeat(s, i, item),
    decreases n,
{
    if i < n {
        lemma_repeat_err_stays(s, i, (n - 1) as nat, item);
    }
}

/// A list read in full holds as many items as were asked for.
pub proof fn lemma_repeat_len<T>(
    s: Seq<u8>,
    n: nat,
    item: spec_fn(Seq<u8>) -> Result<(T, nat), Failure>,
)
    ensures
        spec_repeat(s, n, item) matches Ok((xs, _)) ==> xs.len() == n,
    decreases n,
{
    if n > 0 {
        lemma_repeat_len(s, (n - 1) as nat, item);
    }
}

/// Reading with `item` gives what it gives from the bytes it takes alone.
pub open spec fn item_local<T>(item: spec_fn(Seq<u8>) -> Result<(T, nat), Failure>) -> bool {
    forall|z: Seq<u8>, z2: Seq<u8>| #[trigger] item_local_at(item, z, z2)
}

/// Reading `z` with `item` takes no more than `z`, and reading any `z2` that
/// agrees with `z` on what it takes gives the same.
pub open spec fn item_local_at<T>(
    item: spec_fn(Seq<u8>) -> Result<(T, nat), Failure>,
    z: Seq<u8>,
    z2: Seq<u8>,
) -> bool {
    item(z) matches Ok((v, k)) ==> k <= z.len() && (agree(z, z2, k as int) ==> item(z2) == item(z))
}

/// A list is read from the bytes it takes alone, where its items are.
pub proof fn lemma_repeat_local<T>(
    z: Seq<u8>,
    z2: Seq<u8>,
    n: nat,
    item: spec_fn(Seq<u8>) -> Result<(T, nat), Failure>,
)
    requires
        item_local(item),
    ensures
        spec_repeat(z, n, item) matches Ok((xs, k)) ==> k <= z.len() && (agree(z, z2, k as int)
            ==> spec_repeat(z2, n, item) == spec_repeat(z, n, item)),
    decreases n,
{
    if n > 0 {
        lemma_repeat_local(z, z2, (n - 1) as nat, item);
        if let Ok((xs, m)) = spec_repeat(z, (n - 1) as nat, item) {
            let zm = z.skip(m as int);
            let z2m = z2.skip(m as int);
            if let Ok((x, kk)) = item(zm) {
                assert(item_local_at(item, zm, z2m));
                let k = m + kk;
                if agree(z, z2, k as int) {
                    lemma_agree_subrange(z, z2, k as int, m as int, k as int);
                }
            }
        }
    }
}

/// Like `parsed_as`, for a list of items.
pub open spec fn read_list_as<T: View>(
    r: Result<Vec<T>, Failure>,
    expected: Result<(Seq<T::V>, nat), Failure>,
    before: Seq<u8>,
    after: Seq<u8>,
) -> bool {
    match r {
        Ok(v) => expected matches Ok((w, k)) && w == v@.map_values(|x: T| x@) && k <= before.len()
            && after == before.skip(k as int),
        Err(e) => expected matches Err(f) && e == f,
    }
}

/// How many bytes reading `n` items with `item` from `s` goes past,
/// whatever it comes to, where `item_len` says as much of one item: those
/// of the items read, and what reading the first item that fails goes past.
pub open spec fn spec_repeat_read_len<T>(
    s: Seq<u8>,
    n: nat,
    item: spec_fn(Seq<u8>) -> Result<(T, nat), Failure>,
    item_len: spec_fn(Seq<u8>) -> int,
) -> int
    decreases n,
{
    if n == 0 {
        0
    } else {
        match spec_repeat(s, (n - 1) as nat, item) {
            Ok((_, m)) => m + item_len(s.skip(m as int)),
            Err(_) => spec_repeat_read_len(s, (n - 1) as nat, item, item_len),
        }
    }
}

/// `item_len` counts, for an item read in full, the bytes it takes.
pub open spec fn read_len_exact_at<T>(
    item: spec_fn(Seq<u8>) -> Result<(T, nat), Failure>,
    item_len: spec_fn(Seq<u8>) -> int,
    z: Seq<u8>,
) -> bool {
    item(z) matches Ok((_, k)) ==> item_len(z) == k
}

/// `item_len` counts, for every item read in full, the bytes it takes.
pub open spec fn read_len_exact<T>(
    item: spec_fn(Seq<u8>) -> Result<(T, nat), Failure>,
    item_len: spec_fn(Seq<u8>) -> int,
) -> bool {
    forall|z: Seq<u8>| #[trigger] read_len_exact_at(item, item_len, z)
}

/// Reading a list in full goes past the bytes it takes.
pub proof fn lemma_repeat_read_len_ok<T>(
    s: Seq<u8>,
    n: nat,
    item: spec_fn(Seq<u8>) -> Result<(T, nat), Failure>,
    item_len: spec_fn(Seq<u8>) -> int,
)
    requires
        read_len_exact(item, item_len),
    ensures
        spec_repeat(s, n, item) matches Ok((_, k)) ==> spec_repeat_read_len(s, n, item, item_len)
            == k,
{
    if n > 0 {
        if let Ok((_, m)) = spec_repeat(s, (n - 1) as nat, item) {
            assert(read_len_exact_at(item, item_len, s.skip(m as int)));
        }
    }
}

/// Once reading a list fails, reading a longer one goes past as much.
pub proof fn lemma_repeat_read_len_err_stays<T>(
    s: Seq<u8>,
    i: nat,
    n: nat,
    item: spec_fn(Seq<u8>) -> Result<(T, nat), Failure>,
    item_len: spec_fn(Seq<u8>) -> int,
)
    requires
        i <= n,
        spec_repeat(s, i, item) is Err,
    ensures
        spec_repeat_read_len(s, n, item, item_len) == spec_repeat_read_len(s, i, item, item_len),
    decreases n,
{
    if i < n {
        lemma_repeat_read_len_err_stays(s, i, (n - 1) as nat, item, item_len);
        lemma_repeat_err_stays(s, i, (n - 1) as nat, item);
    }
}

} // verus!
