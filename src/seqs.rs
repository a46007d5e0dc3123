use vstd::prelude::*;

verus! {

/// The sequences of `xs` one after another.
pub open spec fn concat_all<A>(xs: Seq<Seq<A>>) -> Seq<A>
    decreases xs.len(),
{
    if xs.len() == 0 {
        seq![]
    } else {
        concat_all(xs.drop_last()) + xs.last()
    }
}

pub proof fn lemma_concat_take<A>(xs: Seq<Seq<A>>, k: int)
    requires
        0 <= k < xs.len(),
    ensures
        concat_all(xs.take(k + 1)) == concat_all(xs.take(k)) + xs[k],
{
    assert(xs.take(k + 1).drop_last() =~= xs.take(k));
}

pub proof fn lemma_concat_split<A>(xs: Seq<Seq<A>>, k: int)
    requires
        0 <= k <= xs.len(),
    ensures
        concat_all(xs) == concat_all(xs.take(k)) + concat_all(xs.skip(k)),
    decreases xs.len(),
{
    if k == xs.len() {
        assert(xs.take(k) =~= xs);
        assert(xs.skip(k) =~= Seq::<Seq<A>>::empty());
        assert(concat_all(xs) + seq![] =~= concat_all(xs));
    } else {
        let dl = xs.drop_last();
        lemma_concat_split(dl, k);
        assert(dl.take(k) =~= xs.take(k));
        assert(xs.skip(k).drop_last() =~= dl.skip(k));
        assert(xs.skip(k).last() == xs.last());
        assert(concat_all(xs.skip(k)) == concat_all(dl.skip(k)) + xs.last());
        assert((concat_all(xs.take(k)) + concat_all(dl.skip(k))) + xs.last() =~= concat_all(
            xs.take(k),
        ) + (concat_all(dl.skip(k)) + xs.last()));
    }
}

pub proof fn lemma_concat_new_step<A>(n: int, f: spec_fn(int) -> Seq<A>)
    requires
        0 <= n,
    ensures
        concat_all(Seq::new((n + 1) as nat, f)) == concat_all(Seq::new(n as nat, f)) + f(n),
{
    assert(Seq::new((n + 1) as nat, f).drop_last() =~= Seq::new(n as nat, f));
}

/// Every element of every part is an element of the whole.
pub proof fn lemma_concat_contains<A>(xs: Seq<Seq<A>>, i: int, j: int)
    requires
        0 <= i < xs.len(),
        0 <= j < xs[i].len(),
    ensures
        concat_all(xs).contains(xs[i][j]),
{
    lemma_concat_split(xs, i + 1);
    lemma_concat_take(xs, i);
    let whole = concat_all(xs.take(i)) + xs[i] + concat_all(xs.skip(i + 1));
    assert(whole[concat_all(xs.take(i)).len() + j] == xs[i][j]);
}

pub proof fn lemma_concat_has<A>(xs: Seq<Seq<A>>, i: int, x: A)
    requires
        0 <= i < xs.len(),
        xs[i].contains(x),
    ensures
        concat_all(xs).contains(x),
{
    let j = choose|j: int| 0 <= j < xs[i].len() && xs[i][j] == x;
    lemma_concat_contains(xs, i, j);
}

/// Where the whole is empty, so is every part.
pub proof fn lemma_concat_empty<A>(xs: Seq<Seq<A>>, i: int)
    requires
        0 <= i < xs.len(),
        concat_all(xs).len() == 0,
    ensures
        xs[i].len() == 0,
{
    lemma_concat_split(xs, i + 1);
    lemma_concat_take(xs, i);
}

/// The elements of `s` in the order of their first occurrence, each once.
pub open spec fn dedup<A>(s: Seq<A>) -> Seq<A>
    decreases s.len(),
{
    if s.len() == 0 {
        seq![]
    } else {
        let d = dedup(s.drop_last());
        if d.contains(s.last()) {
            d
        } else {
            d.push(s.last())
        }
    }
}

pub proof fn lemma_dedup_push<A>(s: Seq<A>, x: A)
    ensures
        dedup(s.push(x)) == if dedup(s).contains(x) {
            dedup(s)
        } else {
            dedup(s).push(x)
        },
{
    assert(s.push(x).drop_last() =~= s);
}

proof fn lemma_push_contains<A>(s: Seq<A>, y: A, x: A)
    ensures
        s.push(y).contains(x) <==> (s.contains(x) || x == y),
{
    if s.contains(x) {
        let j = choose|j: int| 0 <= j < s.len() && s[j] == x;
        assert(s.push(y)[j] == x);
    }
    if x == y {
        assert(s.push(y)[s.len() as int] == x);
    }
    if s.push(y).contains(x) {
        let j = choose|j: int| 0 <= j < s.len() + 1 && s.push(y)[j] == x;
        if j < s.len() {
            assert(s[j] == x);
        }
    }
}

pub proof fn lemma_dedup_contains<A>(s: Seq<A>, x: A)
    ensures
        dedup(s).contains(x) <==> s.contains(x),
    decreases s.len(),
{
    if s.len() > 0 {
        let dl = s.drop_last();
        let y = s.last();
        let d = dedup(dl);
        lemma_dedup_contains(dl, x);
        assert(s =~= dl.push(y));
        lemma_push_contains(dl, y, x);
        lemma_push_contains(d, y, x);
        if d.contains(y) && x == y {
            assert(d.contains(x));
        }
    }
}

pub proof fn lemma_dedup_unique<A>(s: Seq<A>)
    ensures
        dedup(s).no_duplicates(),
    decreases s.len(),
{
    if s.len() > 0 {
        lemma_dedup_unique(s.drop_last());
    }
}

/// Parts past `m` that are empty add nothing to the whole.
pub proof fn lemma_concat_new_tail_empty<A>(f: spec_fn(int) -> Seq<A>, m: int, n: int)
    requires
        0 <= m <= n,
        forall|j: int| m <= j < n ==> (#[trigger] f(j)).len() == 0,
    ensures
        concat_all(Seq::new(n as nat, f)) == concat_all(Seq::new(m as nat, f)),
    decreases n - m,
{
    if n > m {
        lemma_concat_new_tail_empty(f, m, n - 1);
        lemma_concat_new_step(n - 1, f);
        assert(f(n - 1) =~= Seq::<A>::empty());
        assert(concat_all(Seq::new((n - 1) as nat, f)) + f(n - 1) =~= concat_all(
            Seq::new((n - 1) as nat, f),
        ));
    }
}

/// `only_if(c, x)` holds `x` if `c` holds, and nothing otherwise.
pub open spec fn only_if<A>(c: bool, x: A) -> Seq<A> {
    if c {
        seq![x]
    } else {
        seq![]
    }
}

} // verus!
