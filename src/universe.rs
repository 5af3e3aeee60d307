use vstd::prelude::*;

verus! {

/// One step of folding partner `k` into a body whose current value is `cur`:
/// the partner at index `skip` (the body itself) leaves it as it is, any other
/// partner goes through `interact`.
pub open spec fn fold_step<B, I: Fn(&B, &B) -> B>(
    interact: I,
    partners: Seq<B>,
    skip: int,
    k: int,
    cur: B,
    next: B,
) -> bool {
    if k == skip {
        next == cur
    } else {
        call_ensures(interact, (&cur, &partners[k]), next)
    }
}

/// `chain` lists the successive values of a body that starts at `start` and
/// folds in `partners` in index order, passing over index `skip`.
pub open spec fn is_fold_chain<B, I: Fn(&B, &B) -> B>(
    interact: I,
    start: B,
    partners: Seq<B>,
    skip: int,
    chain: Seq<B>,
) -> bool {
    &&& chain.len() == partners.len() + 1
    &&& chain[0] == start
    &&& forall|k: int|
        0 <= k < partners.len() ==> #[trigger] fold_step(
            interact,
            partners,
            skip,
            k,
            chain[k],
            chain[k + 1],
        )
}

/// `result` is a value that `start` can reach by folding in every partner but
/// the one at `skip`, in index order.
pub open spec fn folds_partners<B, I: Fn(&B, &B) -> B>(
    interact: I,
    start: B,
    partners: Seq<B>,
    skip: int,
    result: B,
) -> bool {
    exists|chain: Seq<B>|
        is_fold_chain(interact, start, partners, skip, chain) && chain.last() == result
}

/// The partners that body `i` sees during the accumulation pass: the bodies
/// before it have already been accumulated (`mid`), the bodies from it on still
/// hold their values from before the tick (`start`).
pub open spec fn partners_of<B>(start: Seq<B>, mid: Seq<B>, i: int) -> Seq<B> {
    mid.take(i) + start.skip(i)
}

/// `mid` is a result of the accumulation pass over `start`: body `i` has folded
/// in every other body, in index order, each as it stood when its turn came.
pub open spec fn accumulated<B, I: Fn(&B, &B) -> B>(
    interact: I,
    start: Seq<B>,
    mid: Seq<B>,
) -> bool {
    &&& mid.len() == start.len()
    &&& forall|i: int|
        0 <= i < start.len() ==> #[trigger] folds_partners(
            interact,
            start[i],
            partners_of(start, mid, i),
            i,
            mid[i],
        )
}

/// `after` is `mid` with `advance` applied to each body.
pub open spec fn advanced<B, A: Fn(&B) -> B>(advance: A, mid: Seq<B>, after: Seq<B>) -> bool {
    &&& after.len() == mid.len()
    &&& forall|i: int| 0 <= i < mid.len() ==> call_ensures(advance, (&mid[i],), #[trigger] after[i])
}

/// Along a fold chain, a part of the body that `interact` never changes stays
/// what it was at the start.
proof fn lemma_chain_keeps_key<B, K, I: Fn(&B, &B) -> B>(
    interact: I,
    key: spec_fn(B) -> K,
    start: B,
    partners: Seq<B>,
    skip: int,
    chain: Seq<B>,
    k: int,
)
    requires
        is_fold_chain(interact, start, partners, skip, chain),
        forall|a: B, b: B, r: B| #[trigger] call_ensures(interact, (&a, &b), r) ==> key(r) == key(a),
        0 <= k < chain.len(),
    ensures
        key(chain[k]) == key(start),
    decreases k,
{
    if k > 0 {
        lemma_chain_keeps_key(interact, key, start, partners, skip, chain, k - 1);
        let m = k - 1;
        assert(fold_step(interact, partners, skip, m, chain[m], chain[m + 1]));
    }
}

/// Where `interact` never changes the part of a body that `key` picks out (its
/// position, mass and charge, say, while it adds to the accumulated force),
/// the accumulation pass keeps that part of every body, and every body reads
/// that part of each partner as it stood before the tick. So the order in
/// which earlier bodies were accumulated does not change what a later body
/// reads of them.
pub proof fn lemma_accumulation_reads_snapshot<B, K, I: Fn(&B, &B) -> B>(
    interact: I,
    key: spec_fn(B) -> K,
    start: Seq<B>,
    mid: Seq<B>,
)
    requires
        accumulated(interact, start, mid),
        forall|a: B, b: B, r: B| #[trigger] call_ensures(interact, (&a, &b), r) ==> key(r) == key(a),
    ensures
        forall|i: int| 0 <= i < start.len() ==> key(#[trigger] mid[i]) == key(start[i]),
        forall|i: int, j: int|
            0 <= i < start.len() && 0 <= j < start.len() ==> key(
                #[trigger] partners_of(start, mid, i)[j],
            ) == key(start[j]),
{
    assert forall|i: int| 0 <= i < start.len() implies key(#[trigger] mid[i]) == key(start[i]) by {
        assert(folds_partners(interact, start[i], partners_of(start, mid, i), i, mid[i]));
        let chain = choose|chain: Seq<B>|
            is_fold_chain(interact, start[i], partners_of(start, mid, i), i, chain)
                && chain.last() == mid[i];
        lemma_chain_keeps_key(
            interact,
            key,
            start[i],
            partners_of(start, mid, i),
            i,
            chain,
            chain.len() - 1,
        );
    }
    assert forall|i: int, j: int|
        0 <= i < start.len() && 0 <= j < start.len() implies key(
        #[trigger] partners_of(start, mid, i)[j],
    ) == key(start[j]) by {
        if j < i {
            assert(key(mid[j]) == key(start[j]));
        }
    }
}

/// The owner of the bodies and of the count of ticks run so far.
pub struct Universe<B> {
    pub bodies: Vec<B>,
    time_since_beginning: u64,
}

impl<B> Universe<B> {
    /// The bodies, in the order they were added.
    pub closed spec fn body_seq(&self) -> Seq<B> {
        self.bodies@
    }

    /// The number of ticks run since the universe was made.
    pub closed spec fn tick_count(&self) -> u64 {
        self.time_since_beginning
    }

    /// An empty universe at tick zero.
    pub fn new() -> (r: Self)
        ensures
            r.body_seq() == Seq::<B>::empty(),
            r.tick_count() == 0,
    {
        Universe { bodies: Vec::new(), time_since_beginning: 0 }
    }

    /// The number of ticks run since the universe was made.
    pub fn ticks(&self) -> (r: u64)
        ensures
            r == self.tick_count(),
    {
        self.time_since_beginning
    }

    /// Appends a body; the others and the tick count stay as they are.
    pub fn add_body(&mut self, body: B)
        ensures
            final(self).body_seq() == old(self).body_seq().push(body),
            final(self).tick_count() == old(self).tick_count(),
    {
        self.bodies.push(body);
    }

    /// Advances the universe by one tick.
    ///
    /// First every body, in index order, folds in every other body through
    /// `interact` (each as it stands at that moment: already accumulated when
    /// it comes earlier, untouched when it comes later); then every body is
    /// replaced by `advance` applied to it. The tick count grows by one.
    pub fn tick<I: Fn(&B, &B) -> B, A: Fn(&B) -> B>(&mut self, interact: I, advance: A)
        requires
            old(self).tick_count() < u64::MAX,
            forall|a: &B, b: &B| call_requires(interact, (a, b)),
            forall|a: &B| call_requires(advance, (a,)),
        ensures
            final(self).tick_count() == old(self).tick_count() + 1,
            final(self).body_seq().len() == old(self).body_seq().len(),
            exists|mid: Seq<B>|
                accumulated(interact, old(self).body_seq(), mid) && advanced(
                    advance,
                    mid,
                    final(self).body_seq(),
                ),
            old(self).body_seq().len() == 0 ==> final(self).body_seq() == old(self).body_seq(),
            old(self).body_seq().len() == 1 ==> call_ensures(
                advance,
                (&old(self).body_seq()[0],),
                final(self).body_seq()[0],
            ),
    {
        self.time_since_beginning = self.time_since_beginning + 1;
        let n = self.bodies.len();
        let ghost start = self.bodies@;
        let mut i: usize = 0;
        while i < n
            invariant
                forall|a: &B, b: &B| call_requires(interact, (a, b)),
                start.len() == n,
                self.bodies@.len() == n,
                self.time_since_beginning == old(self).time_since_beginning + 1,
                0 <= i <= n,
                forall|k: int| i <= k < n ==> self.bodies@[k] == start[k],
                forall|k: int|
                    0 <= k < i ==> #[trigger] folds_partners(
                        interact,
                        start[k],
                        partners_of(start, self.bodies@, k),
                        k,
                        self.bodies@[k],
                    ),
            decreases n - i,
        {
            let ghost outer = self.bodies@;
            let ghost partners = partners_of(start, outer, i as int);
            assert(partners.len() == n);
            assert(forall|k: int| 0 <= k < n && k != i ==> partners[k] == outer[k]);
            assert(forall|k: int|
                0 <= k < i ==> #[trigger] folds_partners(
                    interact,
                    start[k],
                    partners_of(start, outer, k),
                    k,
                    outer[k],
                ));
            let ghost mut chain: Seq<B> = seq![outer[i as int]];
            let mut j: usize = 0;
            while j < n
                invariant
                    forall|a: &B, b: &B| call_requires(interact, (a, b)),
                    self.bodies@.len() == n,
                    self.time_since_beginning == old(self).time_since_beginning + 1,
                self.time_since_beginning == old(self).time_since_beginning + 1,
                    outer.len() == n,
                    partners.len() == n,
                    0 <= i < n,
                    0 <= j <= n,
                    forall|k: int| 0 <= k < n && k != i ==> self.bodies@[k] == outer[k],
                    forall|k: int| 0 <= k < n && k != i ==> partners[k] == outer[k],
                    chain.len() == j + 1,
                    chain[0] == outer[i as int],
                    chain.last() == self.bodies@[i as int],
                    forall|k: int|
                        0 <= k < j ==> #[trigger] fold_step(
                            interact,
                            partners,
                            i as int,
                            k,
                            chain[k],
                            chain[k + 1],
                        ),
                decreases n - j,
            {
                if j != i {
                    let next = interact(&self.bodies[i], &self.bodies[j]);
                    proof {
                        chain = chain.push(next);
                    }
                    self.bodies.set(i, next);
                } else {
                    proof {
                        chain = chain.push(chain.last());
                    }
                }
                j = j + 1;
            }
            assert(is_fold_chain(interact, start[i as int], partners, i as int, chain));
            assert forall|k: int| 0 <= k <= i implies #[trigger] folds_partners(
                interact,
                start[k],
                partners_of(start, self.bodies@, k),
                k,
                self.bodies@[k],
            ) by {
                assert(partners_of(start, self.bodies@, k) =~= partners_of(start, outer, k));
                if k < i {
                    assert(folds_partners(
                        interact,
                        start[k],
                        partners_of(start, outer, k),
                        k,
                        outer[k],
                    ));
                }
            }
            i = i + 1;
        }
        let ghost mid = self.bodies@;
        assert(accumulated(interact, start, mid));
        let mut i: usize = 0;
        while i < n
            invariant
                forall|a: &B| call_requires(advance, (a,)),
                mid.len() == n,
                self.bodies@.len() == n,
                self.time_since_beginning == old(self).time_since_beginning + 1,
                0 <= i <= n,
                forall|k: int| i <= k < n ==> self.bodies@[k] == mid[k],
                forall|k: int|
                    0 <= k < i ==> call_ensures(advance, (&mid[k],), #[trigger] self.bodies@[k]),
            decreases n - i,
        {
            let next = advance(&self.bodies[i]);
            self.bodies.set(i, next);
            i = i + 1;
        }
        assert(start == old(self).body_seq());
        assert(accumulated(interact, start, mid) && advanced(advance, mid, self.bodies@));
        if n == 0 {
            assert(self.bodies@ =~= start);
        }
        if n == 1 {
            assert(folds_partners(interact, start[0], partners_of(start, mid, 0), 0, mid[0]));
            let ghost c = choose|c: Seq<B>|
                is_fold_chain(interact, start[0], partners_of(start, mid, 0), 0, c) && c.last()
                    == mid[0];
            assert(fold_step(interact, partners_of(start, mid, 0), 0, 0, c[0], c[1]));
        }
    }
}

} // verus!
