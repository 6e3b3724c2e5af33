//! The occurrence aggregator: a mapping from a canonical stack string to the
//! number of sampled events that produced it, kept in first-insertion order
//! so that emission is deterministic. Merging two aggregators sums counts
//! per key and never drops a key.

use vstd::prelude::*;

use crate::bytes::{append_bytes, bytes_eq, B_NL, B_SPACE, B_ZERO};

verus! {

/// Addition of counts, saturating at the counter's ceiling.
pub open spec fn sat_add(a: u64, b: u64) -> u64 {
    if a + b > u64::MAX {
        u64::MAX
    } else {
        (a + b) as u64
    }
}

/// Saturated value of a mathematical sum.
pub open spec fn satn(a: nat) -> u64 {
    if a > u64::MAX {
        u64::MAX
    } else {
        a as u64
    }
}

/// First index of `k` in `ks`, or -1 when absent.
pub open spec fn key_idx(ks: Seq<Seq<u8>>, k: Seq<u8>) -> int
    decreases ks.len(),
{
    if ks.len() == 0 {
        -1
    } else if ks[0] == k {
        0
    } else {
        let r = key_idx(ks.drop_first(), k);
        if r < 0 {
            -1
        } else {
            r + 1
        }
    }
}

pub open spec fn has_key(ks: Seq<Seq<u8>>, k: Seq<u8>) -> bool {
    key_idx(ks, k) >= 0
}

pub proof fn lemma_key_idx_props(ks: Seq<Seq<u8>>, k: Seq<u8>)
    ensures
        ({
            let r = key_idx(ks, k);
            if r >= 0 {
                r < ks.len() && ks[r] == k && forall|j: int| 0 <= j < r ==> ks[j] != k
            } else {
                forall|j: int| 0 <= j < ks.len() ==> ks[j] != k
            }
        }),
    decreases ks.len(),
{
    if ks.len() > 0 && ks[0] != k {
        lemma_key_idx_props(ks.drop_first(), k);
        assert forall|j: int| 1 <= j < ks.len() implies ks.drop_first()[j - 1] == ks[j] by {}
    }
}

/// One aggregation step: count `n` occurrences of stack `k`.
pub open spec fn occ_add(ks: Seq<Seq<u8>>, cs: Seq<u64>, k: Seq<u8>, n: u64) -> (Seq<Seq<u8>>, Seq<
    u64,
>) {
    if has_key(ks, k) {
        let i = key_idx(ks, k);
        (ks, cs.update(i, sat_add(cs[i], n)))
    } else {
        (ks.push(k), cs.push(n))
    }
}

/// The count recorded for `k`, zero when absent.
pub open spec fn occ_cnt(ks: Seq<Seq<u8>>, cs: Seq<u64>, k: Seq<u8>) -> u64 {
    if has_key(ks, k) {
        cs[key_idx(ks, k)]
    } else {
        0
    }
}

/// Folding a whole entry list (keys `bk`, counts `bc`) into (`ks`, `cs`),
/// entry by entry from index `i` on.
pub open spec fn merge_from(
    ks: Seq<Seq<u8>>,
    cs: Seq<u64>,
    bk: Seq<Seq<u8>>,
    bc: Seq<u64>,
    i: int,
) -> (Seq<Seq<u8>>, Seq<u64>)
    decreases bk.len() - i,
{
    if i < 0 || i >= bk.len() || bk.len() != bc.len() {
        (ks, cs)
    } else {
        let next = occ_add(ks, cs, bk[i], bc[i]);
        merge_from(next.0, next.1, bk, bc, i + 1)
    }
}

/// Counting a sequence of stacks, one occurrence each, from index `i` on.
pub open spec fn add_stacks_from(
    ks: Seq<Seq<u8>>,
    cs: Seq<u64>,
    stacks: Seq<Seq<u8>>,
    i: int,
) -> (Seq<Seq<u8>>, Seq<u64>)
    decreases stacks.len() - i,
{
    if i < 0 || i >= stacks.len() {
        (ks, cs)
    } else {
        let next = occ_add(ks, cs, stacks[i], 1);
        add_stacks_from(next.0, next.1, stacks, i + 1)
    }
}

/// Decimal digits of `n`, most significant first.
pub open spec fn dec_spec(n: nat) -> Seq<u8>
    decreases n,
{
    if n < 10 {
        seq![(B_ZERO + n) as u8]
    } else {
        dec_spec(n / 10).push((B_ZERO + n % 10) as u8)
    }
}

/// The folded output lines for entries from index `i` on:
/// `<stack> <count>\n` per entry, in entry order.
pub open spec fn folded_from(ks: Seq<Seq<u8>>, cs: Seq<u64>, i: int) -> Seq<u8>
    decreases ks.len() - i,
{
    if i < 0 || i >= ks.len() || ks.len() != cs.len() {
        Seq::empty()
    } else {
        ks[i] + seq![B_SPACE] + dec_spec(cs[i] as nat) + seq![B_NL] + folded_from(ks, cs, i + 1)
    }
}

/// Append the decimal digits of `n`.
pub fn push_dec(n: u64, out: &mut Vec<u8>)
    ensures
        final(out)@ == old(out)@ + dec_spec(n as nat),
    decreases n,
{
    if n < 10 {
        out.push(B_ZERO + (n as u8));
        proof {
            assert(out@ =~= old(out)@ + dec_spec(n as nat));
        }
    } else {
        push_dec(n / 10, out);
        out.push(B_ZERO + ((n % 10) as u8));
        proof {
            assert(out@ =~= old(out)@ + dec_spec(n as nat));
        }
    }
}

/// Mapping from a canonical stack string to its occurrence count, in
/// first-insertion order.
pub struct Occurrences {
    keys: Vec<Vec<u8>>,
    counts: Vec<u64>,
}

impl Occurrences {
    /// The stack strings, in first-insertion order.
    pub closed spec fn keys(self) -> Seq<Seq<u8>> {
        Seq::new(self.keys@.len(), |i: int| self.keys@[i]@)
    }

    /// The counts, positionally matching `keys`.
    pub closed spec fn counts(self) -> Seq<u64> {
        self.counts@
    }

    /// Every stack string appears at most once.
    pub closed spec fn wf(self) -> bool {
        &&& self.keys().len() == self.counts().len()
        &&& forall|i: int, j: int|
            0 <= i < j < self.keys().len() ==> self.keys()[i] != self.keys()[j]
    }

    pub fn new() -> (r: Occurrences)
        ensures
            r.wf(),
            r.keys() == Seq::<Seq<u8>>::empty(),
            r.counts() == Seq::<u64>::empty(),
    {
        let r = Occurrences { keys: Vec::new(), counts: Vec::new() };
        proof {
            assert(r.keys() =~= Seq::<Seq<u8>>::empty());
        }
        r
    }

    pub fn len(&self) -> (n: usize)
        ensures
            n == self.keys().len(),
    {
        self.keys.len()
    }

    /// The count for `key`: `None` when the stack never occurred.
    pub fn get(&self, key: &[u8]) -> (r: Option<u64>)
        requires
            self.wf(),
        ensures
            match r {
                Some(c) => has_key(self.keys(), key@) && c == occ_cnt(
                    self.keys(),
                    self.counts(),
                    key@,
                ),
                None => !has_key(self.keys(), key@),
            },
    {
        proof {
            lemma_key_idx_props(self.keys(), key@);
        }
        let mut i: usize = 0;
        while i < self.keys.len()
            invariant
                self.wf(),
                i <= self.keys().len(),
                forall|j: int| 0 <= j < i ==> self.keys()[j] != key@,
            decreases self.keys().len() - i,
        {
            if bytes_eq(self.keys[i].as_slice(), key) {
                proof {
                    lemma_key_idx_props(self.keys(), key@);
                    assert(self.keys()[i as int] == key@);
                    let r = key_idx(self.keys(), key@);
                    if r < 0 {
                    } else {
                        if r < i {
                            assert(self.keys()[r] != key@);
                        }
                        if r > i {
                            assert(self.keys()[i as int] != key@);
                        }
                    }
                }
                return Some(self.counts[i]);
            }
            i = i + 1;
        }
        proof {
            lemma_key_idx_props(self.keys(), key@);
        }
        None
    }

    /// Record `n` further occurrences of `key`.
    pub fn insert_or_add(&mut self, key: Vec<u8>, n: u64)
        requires
            old(self).wf(),
        ensures
            final(self).wf(),
            (final(self).keys(), final(self).counts()) == occ_add(
                old(self).keys(),
                old(self).counts(),
                key@,
                n,
            ),
    {
        proof {
            lemma_key_idx_props(self.keys(), key@);
        }
        let ghost ks0 = self.keys();
        let mut i: usize = 0;
        while i < self.keys.len()
            invariant
                self.wf(),
                self.keys() == ks0,
                self.counts() == old(self).counts(),
                self.keys == old(self).keys,
                self.counts == old(self).counts,
                i <= self.keys().len(),
                forall|j: int| 0 <= j < i ==> self.keys()[j] != key@,
            decreases self.keys().len() - i,
        {
            if bytes_eq(self.keys[i].as_slice(), key.as_slice()) {
                proof {
                    lemma_key_idx_props(self.keys(), key@);
                    let r = key_idx(self.keys(), key@);
                    assert(self.keys()[i as int] == key@);
                    if r >= 0 && r < i {
                        assert(self.keys()[r] != key@);
                    }
                    if r > i {
                        assert(self.keys()[i as int] != key@);
                    }
                }
                let c = self.counts[i];
                let nc: u64 = if c > u64::MAX - n {
                    u64::MAX
                } else {
                    c + n
                };
                self.counts[i] = nc;
                proof {
                    assert(final(self).keys() =~= old(self).keys());
                }
                return ;
            }
            i = i + 1;
        }
        proof {
            lemma_key_idx_props(self.keys(), key@);
        }
        let ghost kv = key@;
        self.keys.push(key);
        self.counts.push(n);
        proof {
            assert(final(self).keys() =~= old(self).keys().push(kv));
            let ghost fk = final(self).keys();
            assert forall|a: int, b: int| 0 <= a < b < fk.len() implies fk[a] != fk[b] by {
                if b == fk.len() - 1 {
                    assert(fk[a] == old(self).keys()[a]);
                }
            }
        }
    }

    /// Fold every entry of `other` into `self`, summing counts per key and
    /// keeping `other`'s new keys in their order.
    pub fn merge(&mut self, other: &Occurrences)
        requires
            old(self).wf(),
            other.wf(),
        ensures
            final(self).wf(),
            (final(self).keys(), final(self).counts()) == merge_from(
                old(self).keys(),
                old(self).counts(),
                other.keys(),
                other.counts(),
                0,
            ),
    {
        let mut i: usize = 0;
        while i < other.keys.len()
            invariant
                self.wf(),
                other.wf(),
                i <= other.keys().len(),
                merge_from(old(self).keys(), old(self).counts(), other.keys(), other.counts(), 0)
                    == merge_from(self.keys(), self.counts(), other.keys(), other.counts(), i as int),
            decreases other.keys().len() - i,
        {
            let k = other.keys[i].clone();
            proof {
                assert(k@ == other.keys()[i as int]);
            }
            self.insert_or_add(k, other.counts[i]);
            i = i + 1;
        }
    }

    /// The folded output: one `<stack> <count>` line per unique stack, in
    /// first-insertion order.
    pub fn write_folded(&self) -> (out: Vec<u8>)
        requires
            self.wf(),
        ensures
            out@ == folded_from(self.keys(), self.counts(), 0),
    {
        let mut out: Vec<u8> = Vec::new();
        let mut i: usize = 0;
        while i < self.keys.len()
            invariant
                self.wf(),
                i <= self.keys().len(),
                folded_from(self.keys(), self.counts(), 0) == out@ + folded_from(
                    self.keys(),
                    self.counts(),
                    i as int,
                ),
            decreases self.keys().len() - i,
        {
            let ghost before = out@;
            append_bytes(&mut out, self.keys[i].as_slice());
            out.push(B_SPACE);
            push_dec(self.counts[i], &mut out);
            out.push(B_NL);
            proof {
                assert(out@ =~= before + (self.keys()[i as int] + seq![B_SPACE] + dec_spec(
                    self.counts()[i as int] as nat,
                ) + seq![B_NL]));
                assert(folded_from(self.keys(), self.counts(), 0) =~= out@ + folded_from(
                    self.keys(),
                    self.counts(),
                    i + 1,
                ));
            }
            i = i + 1;
        }
        out
    }
}


// ---------------------------------------------------------------------------
// Laws of merging.
// ---------------------------------------------------------------------------

/// No stack string appears twice.
pub open spec fn distinct_keys(ks: Seq<Seq<u8>>) -> bool {
    forall|i: int, j: int| 0 <= i < j < ks.len() ==> ks[i] != ks[j]
}

/// Number of occurrences of `k` among `stacks[i..]`.
pub open spec fn key_count(stacks: Seq<Seq<u8>>, i: int, k: Seq<u8>) -> nat
    decreases stacks.len() - i,
{
    if i < 0 || i >= stacks.len() {
        0
    } else {
        (if stacks[i] == k {
            1nat
        } else {
            0nat
        }) + key_count(stacks, i + 1, k)
    }
}

/// Sum of the counts that entries `[i..]` of (`bk`, `bc`) record for `k`.
pub open spec fn key_sum(bk: Seq<Seq<u8>>, bc: Seq<u64>, i: int, k: Seq<u8>) -> nat
    decreases bk.len() - i,
{
    if i < 0 || i >= bk.len() || bk.len() != bc.len() {
        0
    } else {
        (if bk[i] == k {
            bc[i] as nat
        } else {
            0nat
        }) + key_sum(bk, bc, i + 1, k)
    }
}

pub proof fn lemma_key_idx_push(ks: Seq<Seq<u8>>, x: Seq<u8>, k: Seq<u8>)
    ensures
        key_idx(ks.push(x), k) == (if has_key(ks, k) {
            key_idx(ks, k)
        } else if x == k {
            ks.len() as int
        } else {
            -1int
        }),
    decreases ks.len(),
{
    if ks.len() == 0 {
        assert(ks.push(x)[0] == x);
        assert(ks.push(x).drop_first() =~= Seq::<Seq<u8>>::empty());
        if x != k {
            assert(key_idx(ks.push(x).drop_first(), k) == -1);
        }
    } else {
        assert(ks.push(x)[0] == ks[0]);
        let d = ks.drop_first();
        lemma_key_idx_push(d, x, k);
        assert(ks.push(x).drop_first() =~= d.push(x));
        if ks[0] != k {
            let rp = key_idx(d.push(x), k);
            assert(key_idx(ks.push(x), k) == (if rp < 0 {
                -1int
            } else {
                rp + 1
            }));
            let r = key_idx(d, k);
            assert(key_idx(ks, k) == (if r < 0 {
                -1int
            } else {
                r + 1
            }));
        }
    }
}

/// What one aggregation step does to every key.
pub proof fn lemma_occ_add_props(ks: Seq<Seq<u8>>, cs: Seq<u64>, k: Seq<u8>, n: u64, q: Seq<u8>)
    requires
        ks.len() == cs.len(),
    ensures
        occ_add(ks, cs, k, n).0.len() == occ_add(ks, cs, k, n).1.len(),
        distinct_keys(ks) ==> distinct_keys(occ_add(ks, cs, k, n).0),
        has_key(occ_add(ks, cs, k, n).0, q) == (has_key(ks, q) || q == k),
        occ_cnt(occ_add(ks, cs, k, n).0, occ_add(ks, cs, k, n).1, q) == (if q == k {
            satn(occ_cnt(ks, cs, q) as nat + n as nat)
        } else {
            occ_cnt(ks, cs, q)
        }),
{
    lemma_key_idx_props(ks, k);
    lemma_key_idx_props(ks, q);
    if has_key(ks, k) {
        let i = key_idx(ks, k);
        if q == k {
            assert(occ_cnt(occ_add(ks, cs, k, n).0, occ_add(ks, cs, k, n).1, q) == sat_add(
                cs[i],
                n,
            ));
        } else {
            if has_key(ks, q) {
                assert(key_idx(ks, q) != i);
            }
        }
    } else {
        lemma_key_idx_push(ks, k, q);
        if distinct_keys(ks) {
            let nk = ks.push(k);
            assert forall|a: int, b: int| 0 <= a < b < nk.len() implies nk[a] != nk[b] by {
                if b < ks.len() {
                    assert(nk[a] == ks[a] && nk[b] == ks[b]);
                } else {
                    assert(nk[b] == k && nk[a] == ks[a]);
                    assert(ks[a] != k);
                }
            }
        }
    }
}

/// Saturation collapses through nested additions.
pub proof fn lemma_satn_collapse(a: nat, b: nat)
    ensures
        satn(a + satn(b) as nat) == satn(a + b),
{
}

/// Merging entries bumps every key by the sum those entries record for it.
pub proof fn lemma_merge_cnt(
    ks: Seq<Seq<u8>>,
    cs: Seq<u64>,
    bk: Seq<Seq<u8>>,
    bc: Seq<u64>,
    i: int,
    q: Seq<u8>,
)
    requires
        ks.len() == cs.len(),
        bk.len() == bc.len(),
        0 <= i <= bk.len(),
    ensures
        merge_from(ks, cs, bk, bc, i).0.len() == merge_from(ks, cs, bk, bc, i).1.len(),
        distinct_keys(ks) ==> distinct_keys(merge_from(ks, cs, bk, bc, i).0),
        has_key(merge_from(ks, cs, bk, bc, i).0, q) == (has_key(ks, q) || exists|j: int|
            i <= j < bk.len() && bk[j] == q),
        occ_cnt(merge_from(ks, cs, bk, bc, i).0, merge_from(ks, cs, bk, bc, i).1, q) == satn(
            occ_cnt(ks, cs, q) as nat + key_sum(bk, bc, i, q),
        ),
    decreases bk.len() - i,
{
    if i < bk.len() {
        let nx = occ_add(ks, cs, bk[i], bc[i]);
        lemma_occ_add_props(ks, cs, bk[i], bc[i], q);
        lemma_merge_cnt(nx.0, nx.1, bk, bc, i + 1, q);
        if q == bk[i] {
            lemma_satn_collapse_left(occ_cnt(ks, cs, q) as nat, bc[i] as nat, key_sum(bk, bc, i + 1, q));
        }
        if has_key(merge_from(ks, cs, bk, bc, i).0, q) {
            if !(has_key(ks, q)) && q == bk[i] {
                assert(bk[i] == q);
            }
        }
    } else {
        assert(occ_cnt(ks, cs, q) as nat + 0 == occ_cnt(ks, cs, q) as nat);
        assert(satn(occ_cnt(ks, cs, q) as nat) == occ_cnt(ks, cs, q));
    }
}

/// Saturation collapses from the left as well.
pub proof fn lemma_satn_collapse_left(a: nat, b: nat, c: nat)
    ensures
        satn(satn(a + b) as nat + c) == satn(a + (b + c)),
{
}

/// Counting stacks bumps every key by its number of occurrences.
pub proof fn lemma_add_stacks_cnt(
    ks: Seq<Seq<u8>>,
    cs: Seq<u64>,
    stacks: Seq<Seq<u8>>,
    i: int,
    q: Seq<u8>,
)
    requires
        ks.len() == cs.len(),
        0 <= i <= stacks.len(),
    ensures
        add_stacks_from(ks, cs, stacks, i).0.len() == add_stacks_from(ks, cs, stacks, i).1.len(),
        distinct_keys(ks) ==> distinct_keys(add_stacks_from(ks, cs, stacks, i).0),
        has_key(add_stacks_from(ks, cs, stacks, i).0, q) == (has_key(ks, q) || key_count(
            stacks,
            i,
            q,
        ) > 0),
        occ_cnt(add_stacks_from(ks, cs, stacks, i).0, add_stacks_from(ks, cs, stacks, i).1, q)
            == satn(occ_cnt(ks, cs, q) as nat + key_count(stacks, i, q)),
    decreases stacks.len() - i,
{
    if i < stacks.len() {
        let nx = occ_add(ks, cs, stacks[i], 1);
        lemma_occ_add_props(ks, cs, stacks[i], 1, q);
        lemma_add_stacks_cnt(nx.0, nx.1, stacks, i + 1, q);
        if q == stacks[i] {
            lemma_satn_collapse_left(occ_cnt(ks, cs, q) as nat, 1, key_count(stacks, i + 1, q));
        }
    } else {
        assert(satn(occ_cnt(ks, cs, q) as nat) == occ_cnt(ks, cs, q));
    }
}

/// Entries that never name `q` sum to nothing for it.
pub proof fn lemma_key_sum_none(bk: Seq<Seq<u8>>, bc: Seq<u64>, i: int, q: Seq<u8>)
    requires
        forall|j: int| i <= j < bk.len() ==> bk[j] != q,
    ensures
        key_sum(bk, bc, i, q) == 0,
    decreases bk.len() - i,
{
    if !(i < 0 || i >= bk.len() || bk.len() != bc.len()) {
        lemma_key_sum_none(bk, bc, i + 1, q);
    }
}

/// With distinct keys, the sum for `q` is the one entry that names it.
pub proof fn lemma_key_sum_unique(bk: Seq<Seq<u8>>, bc: Seq<u64>, i: int, t: int, q: Seq<u8>)
    requires
        bk.len() == bc.len(),
        distinct_keys(bk),
        0 <= i <= t < bk.len(),
        bk[t] == q,
    ensures
        key_sum(bk, bc, i, q) == bc[t] as nat,
    decreases bk.len() - i,
{
    if i == t {
        assert forall|j: int| i + 1 <= j < bk.len() implies bk[j] != q by {
            assert(bk[t] != bk[j]);
        }
        lemma_key_sum_none(bk, bc, i + 1, q);
    } else {
        assert(bk[i] != q);
        lemma_key_sum_unique(bk, bc, i + 1, t, q);
    }
}

/// Thread-invariance at the aggregate, per stack string: folding a job's
/// own aggregator (built from its emitted stacks `s2`) into an accumulated
/// aggregator gives every key the same count, and the same presence, as
/// counting those stacks into it directly. Together with the partition law
/// of the driver, the multiset of (stack, count) pairs is therefore
/// independent of thread count and job size.
pub proof fn lemma_merge_counts_like_sequential(
    ak: Seq<Seq<u8>>,
    ac: Seq<u64>,
    s2: Seq<Seq<u8>>,
    q: Seq<u8>,
)
    requires
        ak.len() == ac.len(),
        distinct_keys(ak),
    ensures
        ({
            let b = add_stacks_from(Seq::empty(), Seq::empty(), s2, 0);
            let m = merge_from(ak, ac, b.0, b.1, 0);
            let d = add_stacks_from(ak, ac, s2, 0);
            &&& occ_cnt(m.0, m.1, q) == occ_cnt(d.0, d.1, q)
            &&& (has_key(m.0, q) <==> has_key(d.0, q))
        }),
{
    let b = add_stacks_from(Seq::empty(), Seq::empty(), s2, 0);
    let m = merge_from(ak, ac, b.0, b.1, 0);
    let d = add_stacks_from(ak, ac, s2, 0);
    let e: Seq<Seq<u8>> = Seq::empty();
    let ec: Seq<u64> = Seq::empty();
    assert(distinct_keys(e));
    lemma_add_stacks_cnt(e, ec, s2, 0, q);
    assert(!has_key(e, q));
    assert(occ_cnt(e, ec, q) == 0);
    let kc = key_count(s2, 0, q);
    assert(occ_cnt(b.0, b.1, q) == satn(kc));
    lemma_merge_cnt(ak, ac, b.0, b.1, 0, q);
    lemma_add_stacks_cnt(ak, ac, s2, 0, q);
    // the sum the job's entries record for q is its saturated stack count
    if has_key(b.0, q) {
        lemma_key_idx_props(b.0, q);
        let t = key_idx(b.0, q);
        lemma_key_sum_unique(b.0, b.1, 0, t, q);
        assert(key_sum(b.0, b.1, 0, q) == satn(kc) as nat);
        lemma_satn_collapse(occ_cnt(ak, ac, q) as nat, kc);
    } else {
        lemma_key_idx_props(b.0, q);
        lemma_key_sum_none(b.0, b.1, 0, q);
        assert(kc == 0);
        assert(key_sum(b.0, b.1, 0, q) == 0);
    }
    // presence agrees on both sides
    if has_key(m.0, q) {
        if !has_key(ak, q) {
            let j = choose|j: int| 0 <= j < b.0.len() && b.0[j] == q;
            lemma_key_idx_props(b.0, q);
        }
    }
}

} // verus!
