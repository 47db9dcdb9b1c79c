//! Walking a sequence from left to right with a step that may fail or may
//! drop its item: the first failure is the result of the whole walk.

use vstd::prelude::*;

verus! {

/// The model of a result: the model of the value, or the error as it is.
pub open spec fn models<T: DeepView, E>(r: Result<T, E>) -> Result<T::V, E> {
    match r {
        Ok(t) => Ok(t.deep_view()),
        Err(e) => Err(e),
    }
}

/// Applies `f` to the items of `s` from left to right. The result is the
/// first error that `f` gives, if it gives one; otherwise the values that `f`
/// gave, without the `None`s, in the order of their items.
pub open spec fn try_filter_map<T, U, E>(
    s: Seq<T>,
    f: spec_fn(T) -> Result<Option<U>, E>,
) -> Result<Seq<U>, E>
    decreases s.len(),
{
    if s.len() == 0 {
        Ok(Seq::empty())
    } else {
        match try_filter_map(s.drop_last(), f) {
            Err(e) => Err(e),
            Ok(done) => match f(s.last()) {
                Err(e) => Err(e),
                Ok(None) => Ok(done),
                Ok(Some(u)) => Ok(done.push(u)),
            },
        }
    }
}

/// The step that keeps every value of `f`.
pub open spec fn keeping<T, U, E>(f: spec_fn(T) -> Result<U, E>) -> spec_fn(T) -> Result<
    Option<U>,
    E,
> {
    |t: T|
        match f(t) {
            Ok(u) => Ok(Some(u)),
            Err(e) => Err(e),
        }
}

/// Applies `f` to the items of `s` from left to right. The result is the
/// first error that `f` gives, if it gives one; otherwise the values that `f`
/// gave, one for each item.
pub open spec fn try_map<T, U, E>(s: Seq<T>, f: spec_fn(T) -> Result<U, E>) -> Result<Seq<U>, E> {
    try_filter_map(s, keeping(f))
}

/// Whether `f` fails on the item at `i` and on none before it.
pub open spec fn first_failure<T, U, E>(
    s: Seq<T>,
    f: spec_fn(T) -> Result<Option<U>, E>,
    i: int,
) -> bool {
    &&& 0 <= i < s.len()
    &&& f(s[i]) is Err
    &&& forall|j: int| 0 <= j < i ==> (#[trigger] f(s[j])) is Ok
}

/// One more item: the walk over the first `n + 1` items is the walk over the
/// first `n`, followed by the step on item `n`.
pub proof fn lemma_walk_step<T, U, E>(s: Seq<T>, f: spec_fn(T) -> Result<Option<U>, E>, n: int)
    requires
        0 <= n < s.len(),
    ensures
        try_filter_map(s.take(n + 1), f) == match try_filter_map(s.take(n), f) {
            Err(e) => Err(e),
            Ok(done) => match f(s[n]) {
                Err(e) => Err(e),
                Ok(None) => Ok(done),
                Ok(Some(u)) => Ok(done.push(u)),
            },
        },
{
    assert(s.take(n + 1).drop_last() =~= s.take(n));
    assert(s.take(n + 1).last() == s[n]);
}

/// Once a prefix has failed, the whole walk fails in the same way.
pub proof fn lemma_walk_failed<T, U, E>(s: Seq<T>, f: spec_fn(T) -> Result<Option<U>, E>, n: int)
    requires
        0 <= n <= s.len(),
        try_filter_map(s.take(n), f) is Err,
    ensures
        try_filter_map(s, f) == try_filter_map(s.take(n), f),
    decreases s.len() - n,
{
    if n == s.len() {
        assert(s.take(n) =~= s);
    } else {
        lemma_walk_step(s, f, n);
        lemma_walk_failed(s, f, n + 1);
    }
}

/// The walk over all items is the walk over the prefix of full length.
pub proof fn lemma_walk_end<T, U, E>(s: Seq<T>, f: spec_fn(T) -> Result<Option<U>, E>)
    ensures
        try_filter_map(s.take(s.len() as int), f) == try_filter_map(s, f),
{
    assert(s.take(s.len() as int) =~= s);
}

/// A walk fails exactly where the step fails on some item, and then with the
/// error of the first such item.
pub proof fn lemma_walk_error<T, U, E>(s: Seq<T>, f: spec_fn(T) -> Result<Option<U>, E>)
    ensures
        try_filter_map(s, f) is Err <==> exists|i: int| first_failure(s, f, i),
        forall|i: int|
            first_failure(s, f, i) ==> try_filter_map(s, f) == Err::<Seq<U>, E>(f(s[i])->Err_0),
    decreases s.len(),
{
    if s.len() == 0 {
    } else {
        let p = s.drop_last();
        lemma_walk_error(p, f);
        let last = s.len() - 1;
        if try_filter_map(p, f) is Err {
            let i = choose|i: int| first_failure(p, f, i);
            assert(f(s[i]) == f(p[i]));
            assert forall|j: int| 0 <= j < i implies (#[trigger] f(s[j])) is Ok by {
                assert(f(p[j]) is Ok);
            }
            assert(first_failure(s, f, i));
            assert forall|k: int| first_failure(s, f, k) implies try_filter_map(s, f) == Err::<
                Seq<U>,
                E,
            >(f(s[k])->Err_0) by {
                if k < i {
                    assert(f(s[k]) is Err);
                    assert(f(p[k]) is Ok);
                } else if k > i {
                    assert(f(s[i]) is Ok);
                } else {
                    assert(first_failure(p, f, k));
                }
            }
        } else {
            assert forall|j: int| 0 <= j < last implies (#[trigger] f(s[j])) is Ok by {
                if f(s[j]) is Err {
                    lemma_some_first_failure(p, f, j);
                }
            }
            if f(s[last]) is Err {
                assert(first_failure(s, f, last));
            } else {
                assert forall|k: int| !first_failure(s, f, k) by {
                    if first_failure(s, f, k) {
                        if k < last {
                            assert(f(s[k]) is Ok);
                        }
                    }
                }
            }
            assert forall|k: int| first_failure(s, f, k) implies try_filter_map(s, f) == Err::<
                Seq<U>,
                E,
            >(f(s[k])->Err_0) by {
                if k < last {
                    assert(f(s[k]) is Ok);
                }
            }
        }
    }
}

/// Where the step fails on some item, it fails on a first one.
pub proof fn lemma_some_first_failure<T, U, E>(
    s: Seq<T>,
    f: spec_fn(T) -> Result<Option<U>, E>,
    j: int,
)
    requires
        0 <= j < s.len(),
        f(s[j]) is Err,
    ensures
        exists|i: int| 0 <= i <= j && first_failure(s, f, i),
    decreases j,
{
    if exists|k: int| 0 <= k < j && (#[trigger] f(s[k])) is Err {
        let k = choose|k: int| 0 <= k < j && (#[trigger] f(s[k])) is Err;
        lemma_some_first_failure(s, f, k);
    } else {
        assert(first_failure(s, f, j));
    }
}

/// Where `try_map` succeeds it gives one value for each item: the value of
/// `f` on that item.
pub proof fn lemma_try_map_ok<T, U, E>(s: Seq<T>, f: spec_fn(T) -> Result<U, E>)
    requires
        try_map(s, f) is Ok,
    ensures
        try_map(s, f)->Ok_0.len() == s.len(),
        forall|i: int| 0 <= i < s.len() ==> f(s[i]) == Ok::<U, E>(#[trigger] try_map(s, f)->Ok_0[i]),
    decreases s.len(),
{
    if s.len() > 0 {
        lemma_try_map_ok(s.drop_last(), f);
    }
}

/// One more item under `try_map`.
pub proof fn lemma_try_map_step<T, U, E>(s: Seq<T>, f: spec_fn(T) -> Result<U, E>, n: int)
    requires
        0 <= n < s.len(),
    ensures
        try_map(s.take(n + 1), f) == match try_map(s.take(n), f) {
            Err(e) => Err(e),
            Ok(done) => match f(s[n]) {
                Err(e) => Err(e),
                Ok(u) => Ok(done.push(u)),
            },
        },
{
    lemma_walk_step(s, keeping(f), n);
}

/// A walk that succeeds has succeeded on every prefix, and what a prefix
/// gave is the beginning of what the whole gave.
pub proof fn lemma_walk_prefix<T, U, E>(s: Seq<T>, f: spec_fn(T) -> Result<Option<U>, E>, n: int)
    requires
        0 <= n <= s.len(),
        try_filter_map(s, f) is Ok,
    ensures
        try_filter_map(s.take(n), f) is Ok,
        try_filter_map(s.take(n), f)->Ok_0.len() <= try_filter_map(s, f)->Ok_0.len(),
        try_filter_map(s.take(n), f)->Ok_0 == try_filter_map(s, f)->Ok_0.take(
            try_filter_map(s.take(n), f)->Ok_0.len() as int,
        ),
    decreases s.len() - n,
{
    if n == s.len() {
        assert(s.take(n) =~= s);
        let whole = try_filter_map(s, f)->Ok_0;
        assert(whole.take(whole.len() as int) =~= whole);
    } else {
        if try_filter_map(s.take(n + 1), f) is Err {
            lemma_walk_failed(s, f, n + 1);
        }
        lemma_walk_prefix(s, f, n + 1);
        lemma_walk_step(s, f, n);
        let whole = try_filter_map(s, f)->Ok_0;
        let longer = try_filter_map(s.take(n + 1), f)->Ok_0;
        let shorter = try_filter_map(s.take(n), f)->Ok_0;
        assert(shorter =~= whole.take(shorter.len() as int)) by {
            assert(longer == whole.take(longer.len() as int));
        }
    }
}

/// A walk that succeeds has kept at least two values where the step keeps
/// the values of two different items.
pub proof fn lemma_walk_keeps_two<T, U, E>(
    s: Seq<T>,
    f: spec_fn(T) -> Result<Option<U>, E>,
    i: int,
    j: int,
)
    requires
        0 <= i < j < s.len(),
        try_filter_map(s, f) is Ok,
        f(s[i]) matches Ok(Some(_)),
        f(s[j]) matches Ok(Some(_)),
    ensures
        try_filter_map(s, f)->Ok_0.len() >= 2,
{
    lemma_walk_prefix(s, f, i);
    lemma_walk_prefix(s, f, i + 1);
    lemma_walk_step(s, f, i);
    lemma_walk_prefix(s, f, j);
    lemma_walk_prefix(s, f, j + 1);
    lemma_walk_step(s, f, j);
    lemma_walk_prefix(s.take(j), f, i + 1);
    assert(s.take(j).take(i + 1) =~= s.take(i + 1));
}

/// A walk keeps nothing where the step drops every item.
pub proof fn lemma_walk_keeps_none<T, U, E>(s: Seq<T>, f: spec_fn(T) -> Result<Option<U>, E>)
    requires
        forall|i: int| 0 <= i < s.len() ==> (#[trigger] f(s[i])) == Ok::<Option<U>, E>(None),
    ensures
        try_filter_map(s, f) == Ok::<Seq<U>, E>(Seq::empty()),
    decreases s.len(),
{
    if s.len() > 0 {
        let p = s.drop_last();
        assert forall|i: int| 0 <= i < p.len() implies (#[trigger] f(p[i])) == Ok::<Option<U>, E>(
            None,
        ) by {
            assert(f(s[i]) == Ok::<Option<U>, E>(None));
        }
        lemma_walk_keeps_none(p, f);
        assert(f(s[s.len() - 1]) == Ok::<Option<U>, E>(None));
    }
}

/// Every value that a walk has kept is the value that the step keeps for
/// some item.
pub proof fn lemma_walk_kept_from<T, U, E>(s: Seq<T>, f: spec_fn(T) -> Result<Option<U>, E>)
    requires
        try_filter_map(s, f) is Ok,
    ensures
        forall|i: int|
            0 <= i < try_filter_map(s, f)->Ok_0.len() ==> exists|j: int|
                0 <= j < s.len() && #[trigger] f(s[j]) == Ok::<Option<U>, E>(
                    Some(#[trigger] try_filter_map(s, f)->Ok_0[i]),
                ),
    decreases s.len(),
{
    if s.len() > 0 {
        let p = s.drop_last();
        let last = s.len() - 1;
        lemma_walk_kept_from(p, f);
        let whole = try_filter_map(s, f)->Ok_0;
        let part = try_filter_map(p, f)->Ok_0;
        assert forall|i: int| 0 <= i < whole.len() implies exists|j: int|
            0 <= j < s.len() && #[trigger] f(s[j]) == Ok::<Option<U>, E>(
                Some(#[trigger] whole[i]),
            ) by {
            if i < part.len() {
                assert(whole[i] == part[i]);
                let j = choose|j: int|
                    0 <= j < p.len() && #[trigger] f(p[j]) == Ok::<Option<U>, E>(Some(part[i]));
                assert(f(s[j]) == Ok::<Option<U>, E>(Some(whole[i])));
            } else {
                assert(f(s[last]) == Ok::<Option<U>, E>(Some(whole[i])));
            }
        }
    }
}

/// A walk whose step never fails gives what the step keeps, in order.
pub proof fn lemma_walk_without_failure<T, U, E>(
    s: Seq<T>,
    f: spec_fn(T) -> Result<Option<U>, E>,
    g: spec_fn(T) -> Option<U>,
)
    requires
        forall|i: int| 0 <= i < s.len() ==> (#[trigger] f(s[i])) == Ok::<Option<U>, E>(g(s[i])),
    ensures
        try_filter_map(s, f) == Ok::<Seq<U>, E>(s.filter_map(g)),
    decreases s.len(),
{
    if s.len() > 0 {
        let p = s.drop_last();
        assert forall|i: int| 0 <= i < p.len() implies (#[trigger] f(p[i])) == Ok::<Option<U>, E>(
            g(p[i]),
        ) by {
            assert(f(s[i]) == Ok::<Option<U>, E>(g(s[i])));
        }
        lemma_walk_without_failure(p, f, g);
        assert(f(s[s.len() - 1]) == Ok::<Option<U>, E>(g(s[s.len() - 1])));
        match g(s.last()) {
            Some(u) => {
                assert(p.filter_map(g) + seq![u] =~= p.filter_map(g).push(u));
            },
            None => {},
        }
    }
}

/// A walk over two sequences, one after the other, is the walk over the
/// first followed by the walk over the second.
pub proof fn lemma_walk_concat<T, U, E>(a: Seq<T>, b: Seq<T>, f: spec_fn(T) -> Result<Option<U>, E>)
    ensures
        try_filter_map(a + b, f) == match try_filter_map(a, f) {
            Err(e) => Err(e),
            Ok(x) => match try_filter_map(b, f) {
                Err(e) => Err(e),
                Ok(y) => Ok(x + y),
            },
        },
    decreases b.len(),
{
    if b.len() == 0 {
        assert(a + b =~= a);
        if try_filter_map(a, f) is Ok {
            let x = try_filter_map(a, f)->Ok_0;
            assert(x + Seq::<U>::empty() =~= x);
        }
    } else {
        let p = b.drop_last();
        lemma_walk_concat(a, p, f);
        assert((a + b).drop_last() =~= a + p);
        assert((a + b).last() == b.last());
        if try_filter_map(a, f) is Ok && try_filter_map(p, f) is Ok {
            let x = try_filter_map(a, f)->Ok_0;
            let y = try_filter_map(p, f)->Ok_0;
            match f(b.last()) {
                Ok(Some(u)) => {
                    assert((x + y).push(u) =~= x + y.push(u));
                },
                _ => {},
            }
        }
    }
}

} // verus!
