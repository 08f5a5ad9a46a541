//! Split strategies: how one payload is cut into the ordered sub-units that a
//! fan-out pool processes independently.

use vstd::prelude::*;

verus! {

/// The byte that ends a line.
pub const NEWLINE: u8 = 10;

/// How a payload is divided into sub-units.
#[derive(Clone, Copy, Debug, PartialEq, Eq, Structural)]
pub enum SplitStrategy {
    /// The whole payload is one sub-unit.
    WholeItem,
    /// One sub-unit per line; the newline bytes themselves are dropped.
    ByLine,
    /// Consecutive pieces of the given number of bytes (the last may be
    /// shorter). A size of zero keeps the payload whole.
    FixedChunk(usize),
}

/// The lines of `s`, split at every newline byte. Like `str::split('\n')`,
/// an empty payload has one empty line and a trailing newline gives a final
/// empty line.
pub open spec fn spec_lines(s: Seq<u8>) -> Seq<Seq<u8>>
    decreases s.len(),
{
    if s.len() == 0 {
        seq![Seq::<u8>::empty()]
    } else {
        let p = spec_lines(s.drop_last());
        if s.last() == NEWLINE {
            p.push(Seq::<u8>::empty())
        } else {
            p.update(p.len() - 1, p.last().push(s.last()))
        }
    }
}

/// The pieces of `s` of `n` bytes each, the last one possibly shorter. An
/// empty payload is one empty piece; `n == 0` keeps `s` whole.
pub open spec fn spec_chunks(s: Seq<u8>, n: nat) -> Seq<Seq<u8>>
    decreases s.len(),
{
    if s.len() == 0 {
        seq![Seq::<u8>::empty()]
    } else {
        let p = spec_chunks(s.drop_last(), n);
        if n > 0 && p.last().len() == n {
            p.push(seq![s.last()])
        } else {
            p.update(p.len() - 1, p.last().push(s.last()))
        }
    }
}

/// The sub-units of `s` under `strategy`.
pub open spec fn spec_split(s: Seq<u8>, strategy: SplitStrategy) -> Seq<Seq<u8>> {
    match strategy {
        SplitStrategy::WholeItem => seq![s],
        SplitStrategy::ByLine => spec_lines(s),
        SplitStrategy::FixedChunk(n) => spec_chunks(s, n as nat),
    }
}

/// The pieces put back together with a newline between neighbours.
pub open spec fn join_lines(p: Seq<Seq<u8>>) -> Seq<u8>
    decreases p.len(),
{
    if p.len() == 0 {
        Seq::<u8>::empty()
    } else if p.len() == 1 {
        p[0]
    } else {
        join_lines(p.drop_last()) + seq![NEWLINE] + p.last()
    }
}

/// The pieces put back together end to end.
pub open spec fn join_chunks(p: Seq<Seq<u8>>) -> Seq<u8>
    decreases p.len(),
{
    if p.len() == 0 {
        Seq::<u8>::empty()
    } else {
        join_chunks(p.drop_last()) + p.last()
    }
}

/// The sub-units put back together as the strategy cut them.
pub open spec fn join_split(p: Seq<Seq<u8>>, strategy: SplitStrategy) -> Seq<u8> {
    match strategy {
        SplitStrategy::ByLine => join_lines(p),
        _ => join_chunks(p),
    }
}

/// `s` has no newline byte.
pub open spec fn no_newline(s: Seq<u8>) -> bool {
    forall|i: int| 0 <= i < s.len() ==> s[i] != NEWLINE
}

proof fn lemma_lines_shape(s: Seq<u8>)
    ensures
        spec_lines(s).len() >= 1,
        join_lines(spec_lines(s)) == s,
        forall|k: int| 0 <= k < spec_lines(s).len() ==> no_newline(#[trigger] spec_lines(s)[k]),
    decreases s.len(),
{
    if s.len() > 0 {
        let t = s.drop_last();
        lemma_lines_shape(t);
        let p = spec_lines(t);
        assert(t.push(s.last()) == s);
        if s.last() == NEWLINE {
            let q = p.push(Seq::<u8>::empty());
            assert(q.drop_last() == p);
            assert(join_lines(q) == join_lines(p) + seq![NEWLINE] + Seq::<u8>::empty());
            assert(join_lines(q) =~= s);
            assert forall|k: int| 0 <= k < q.len() implies no_newline(#[trigger] q[k]) by {
                if k < p.len() {
                    assert(q[k] == p[k]);
                }
            }
        } else {
            let l = p.last().push(s.last());
            let q = p.update(p.len() - 1, l);
            assert(q.last() == l);
            if p.len() == 1 {
                assert(join_lines(q) =~= s);
            } else {
                assert(q.drop_last() =~= p.drop_last());
                assert(join_lines(p) == join_lines(p.drop_last()) + seq![NEWLINE] + p.last());
                assert(join_lines(q) =~= s);
            }
            assert forall|k: int| 0 <= k < q.len() implies no_newline(#[trigger] q[k]) by {
                if k < p.len() - 1 {
                    assert(q[k] == p[k]);
                } else {
                    assert(no_newline(p[k]));
                    assert forall|i: int| 0 <= i < q[k].len() implies q[k][i] != NEWLINE by {
                        if i < p.last().len() {
                            assert(q[k][i] == p.last()[i]);
                        }
                    }
                }
            }
        }
    }
}

proof fn lemma_chunks_shape(s: Seq<u8>, n: nat)
    ensures
        spec_chunks(s, n).len() >= 1,
        join_chunks(spec_chunks(s, n)) == s,
        n > 0 ==> forall|k: int|
            0 <= k < spec_chunks(s, n).len() ==> #[trigger] spec_chunks(s, n)[k].len() <= n,
    decreases s.len(),
{
    if s.len() > 0 {
        let t = s.drop_last();
        lemma_chunks_shape(t, n);
        let p = spec_chunks(t, n);
        assert(t.push(s.last()) == s);
        if n > 0 && p.last().len() == n {
            let q = p.push(seq![s.last()]);
            assert(q.drop_last() == p);
            assert(join_chunks(q) =~= s);
            if n > 0 {
                assert forall|k: int| 0 <= k < q.len() implies #[trigger] q[k].len() <= n by {
                    if k < p.len() {
                        assert(q[k] == p[k]);
                    }
                }
            }
        } else {
            let q = p.update(p.len() - 1, p.last().push(s.last()));
            assert(q.drop_last() =~= p.drop_last());
            assert(join_chunks(p) == join_chunks(p.drop_last()) + p.last());
            assert(join_chunks(q) =~= s);
            if n > 0 {
                assert forall|k: int| 0 <= k < q.len() implies #[trigger] q[k].len() <= n by {
                    if k < p.len() - 1 {
                        assert(q[k] == p[k]);
                    }
                }
            }
        }
    } else {
        let p = spec_chunks(s, n);
        assert(p.drop_last() =~= Seq::<Seq<u8>>::empty());
        assert(join_chunks(p) == join_chunks(p.drop_last()) + p.last());
        assert(join_chunks(p) =~= s);
    }
}

/// Splitting loses nothing: there is at least one sub-unit, and joining the
/// sub-units as the strategy cut them gives back the payload. Lines hold no
/// newline, and fixed chunks are at most the chunk size.
pub proof fn lemma_split_reassembles(s: Seq<u8>, strategy: SplitStrategy)
    ensures
        spec_split(s, strategy).len() >= 1,
        join_split(spec_split(s, strategy), strategy) == s,
        strategy is ByLine ==> forall|k: int|
            0 <= k < spec_split(s, strategy).len() ==> no_newline(
                #[trigger] spec_split(s, strategy)[k],
            ),
        strategy is FixedChunk && strategy->FixedChunk_0 > 0 ==> forall|k: int|
            0 <= k < spec_split(s, strategy).len() ==> #[trigger] spec_split(s, strategy)[k].len()
                <= strategy->FixedChunk_0,
{
    match strategy {
        SplitStrategy::WholeItem => {
            let p = seq![s];
            assert(p.drop_last() =~= Seq::<Seq<u8>>::empty());
            assert(join_chunks(p) == join_chunks(p.drop_last()) + p.last());
            assert(join_chunks(p) =~= s);
        },
        SplitStrategy::ByLine => {
            lemma_lines_shape(s);
        },
        SplitStrategy::FixedChunk(n) => {
            lemma_chunks_shape(s, n as nat);
        },
    }
}

/// Cuts `payload` into its sub-units under `strategy`, in order.
pub fn split_payload(payload: &[u8], strategy: SplitStrategy) -> (units: Vec<Vec<u8>>)
    ensures
        units@.len() == spec_split(payload@, strategy).len(),
        forall|k: int| 0 <= k < units@.len() ==> #[trigger] units@[k]@ == spec_split(payload@, strategy)[k],
{
    let mut done: Vec<Vec<u8>> = Vec::new();
    let mut cur: Vec<u8> = Vec::new();
    let mut i: usize = 0;
    while i < payload.len()
        invariant
            i <= payload@.len(),
            ({
                let p = spec_split(payload@.subrange(0, i as int), strategy);
                &&& p.len() == done@.len() + 1
                &&& forall|k: int| 0 <= k < done@.len() ==> #[trigger] done@[k]@ == p[k]
                &&& cur@ == p.last()
            }),
        decreases payload@.len() - i,
    {
        let c = payload[i];
        let ghost t = payload@.subrange(0, i as int);
        let ghost s = payload@.subrange(0, i as int + 1);
        assert(s.drop_last() == t);
        assert(s.last() == c);
        let cut = match strategy {
            SplitStrategy::WholeItem => false,
            SplitStrategy::ByLine => c == NEWLINE,
            SplitStrategy::FixedChunk(n) => n > 0 && cur.len() == n,
        };
        if cut {
            let piece = cur;
            done.push(piece);
            cur = Vec::new();
            match strategy {
                SplitStrategy::ByLine => {},
                _ => {
                    cur.push(c);
                },
            }
        } else {
            cur.push(c);
        }
        proof {
            let p = spec_split(t, strategy);
            let q = spec_split(s, strategy);
            match strategy {
                SplitStrategy::WholeItem => {
                    assert(t.push(c) =~= s);
                    assert(q =~= p.update(0, p[0].push(c)));
                },
                _ => {},
            }
            if cut {
                assert(cur@ =~= q.last());
                assert forall|k: int| 0 <= k < done@.len() implies #[trigger] done@[k]@ == q[k] by {
                    if k < done@.len() - 1 {
                        assert(q[k] == p[k]);
                    }
                }
            } else {
                assert forall|k: int| 0 <= k < done@.len() implies #[trigger] done@[k]@ == q[k] by {
                    assert(q[k] == p[k]);
                }
            }
        }
        i = i + 1;
    }
    assert(payload@.subrange(0, i as int) == payload@);
    done.push(cur);
    done
}

/// The sum of `f` over the pieces.
pub open spec fn sum_of(f: spec_fn(Seq<u8>) -> nat, p: Seq<Seq<u8>>) -> nat
    decreases p.len(),
{
    if p.len() == 0 {
        0
    } else {
        sum_of(f, p.drop_last()) + f(p.last())
    }
}

/// `f` adds up across a newline: the value on two lines joined by a newline
/// is the sum of the values on each.
pub open spec fn additive_across_newline(f: spec_fn(Seq<u8>) -> nat) -> bool {
    forall|a: Seq<u8>, b: Seq<u8>| #[trigger] f(a + seq![NEWLINE] + b) == f(a) + f(b)
}

/// `f` adds up across any cut.
pub open spec fn additive(f: spec_fn(Seq<u8>) -> nat) -> bool {
    forall|a: Seq<u8>, b: Seq<u8>| #[trigger] f(a + b) == f(a) + f(b)
}

proof fn lemma_sum_join_lines(f: spec_fn(Seq<u8>) -> nat, p: Seq<Seq<u8>>)
    requires
        additive_across_newline(f),
        p.len() >= 1,
    ensures
        sum_of(f, p) == f(join_lines(p)),
    decreases p.len(),
{
    if p.len() == 1 {
        assert(p.drop_last() =~= Seq::<Seq<u8>>::empty());
        assert(sum_of(f, p.drop_last()) == 0);
    } else {
        lemma_sum_join_lines(f, p.drop_last());
        assert(f(join_lines(p.drop_last()) + seq![NEWLINE] + p.last()) == f(join_lines(
            p.drop_last(),
        )) + f(p.last()));
    }
}

proof fn lemma_sum_join_chunks(f: spec_fn(Seq<u8>) -> nat, p: Seq<Seq<u8>>)
    requires
        additive(f),
        p.len() >= 1,
    ensures
        sum_of(f, p) == f(join_chunks(p)),
    decreases p.len(),
{
    if p.len() == 1 {
        assert(p.drop_last() =~= Seq::<Seq<u8>>::empty());
        assert(sum_of(f, p.drop_last()) == 0);
        assert(join_chunks(p.drop_last()) =~= Seq::<u8>::empty());
        assert(join_chunks(p.drop_last()) + p.last() =~= p.last());
    } else {
        lemma_sum_join_chunks(f, p.drop_last());
        assert(f(join_chunks(p.drop_last()) + p.last()) == f(join_chunks(p.drop_last())) + f(
            p.last(),
        ));
    }
}

/// Fanning a payload out and summing the transform over its sub-units gives
/// the transform of the whole payload, whenever the transform adds up across
/// the strategy's cuts: across a newline for lines, across any cut for fixed
/// chunks, and always for a whole item.
pub proof fn lemma_fan_out_sum_matches_whole(
    f: spec_fn(Seq<u8>) -> nat,
    s: Seq<u8>,
    strategy: SplitStrategy,
)
    requires
        strategy is ByLine ==> additive_across_newline(f),
        strategy is FixedChunk ==> additive(f),
    ensures
        sum_of(f, spec_split(s, strategy)) == f(s),
{
    lemma_split_reassembles(s, strategy);
    match strategy {
        SplitStrategy::WholeItem => {
            let p = seq![s];
            assert(p.drop_last() =~= Seq::<Seq<u8>>::empty());
            assert(sum_of(f, p.drop_last()) == 0);
            assert(spec_split(s, strategy) == p);
        },
        SplitStrategy::ByLine => {
            lemma_sum_join_lines(f, spec_split(s, strategy));
        },
        SplitStrategy::FixedChunk(n) => {
            lemma_sum_join_chunks(f, spec_split(s, strategy));
        },
    }
}

} // verus!
