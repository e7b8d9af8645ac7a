//! A token ring: (token, value) entries sorted by token, walked cyclically.
use vstd::prelude::*;

verus! {

/// Entries ascending by token.
pub open spec fn is_sorted(s: Seq<(i64, usize)>) -> bool {
    forall|i: int, j: int| 0 <= i <= j < s.len() ==> s[i].0 <= s[j].0
}

/// Where `x` goes in `s` so that it lands after every entry whose token is
/// not greater than its own.
pub open spec fn insert_pos(s: Seq<(i64, usize)>, x: (i64, usize)) -> nat
    decreases s.len(),
{
    if s.len() == 0 {
        0
    } else if s.last().0 <= x.0 {
        s.len()
    } else {
        insert_pos(s.drop_last(), x)
    }
}

/// Stable sort by token: entries with equal tokens keep their input order.
pub open spec fn stable_sort(s: Seq<(i64, usize)>) -> Seq<(i64, usize)>
    decreases s.len(),
{
    if s.len() == 0 {
        s
    } else {
        let p = stable_sort(s.drop_last());
        p.insert(insert_pos(p, s.last()) as int, s.last())
    }
}

/// Number of entries whose token is below `t`.
pub open spec fn count_below(s: Seq<(i64, usize)>, t: i64) -> nat
    decreases s.len(),
{
    if s.len() == 0 {
        0
    } else {
        count_below(s.drop_last(), t) + if s.last().0 < t {
            1nat
        } else {
            0nat
        }
    }
}

/// `s` read from position `k` to its end, then from its start up to `k`.
pub open spec fn rotate<A>(s: Seq<A>, k: int) -> Seq<A> {
    s.skip(k) + s.take(k)
}

proof fn lemma_insert_pos_bounds(s: Seq<(i64, usize)>, x: (i64, usize))
    requires
        is_sorted(s),
    ensures
        insert_pos(s, x) <= s.len(),
        forall|i: int| 0 <= i < insert_pos(s, x) ==> s[i].0 <= x.0,
        forall|i: int| insert_pos(s, x) <= i < s.len() ==> s[i].0 > x.0,
    decreases s.len(),
{
    if s.len() > 0 {
        let p = s.drop_last();
        if s.last().0 > x.0 {
            assert(is_sorted(p));
            lemma_insert_pos_bounds(p, x);
            assert forall|i: int| 0 <= i < insert_pos(s, x) implies s[i].0 <= x.0 by {
                assert(s[i] == p[i]);
            }
            assert forall|i: int| insert_pos(s, x) <= i < s.len() implies s[i].0 > x.0 by {
                if i < p.len() {
                    assert(s[i] == p[i]);
                } else {
                    assert(s[i] == s.last());
                }
            }
        } else {
            assert forall|i: int| 0 <= i < insert_pos(s, x) implies s[i].0 <= x.0 by {
                assert(s[i].0 <= s[s.len() - 1].0);
            }
        }
    }
}

/// A stably sorted sequence is sorted.
pub proof fn lemma_stable_sort_sorted(s: Seq<(i64, usize)>)
    ensures
        is_sorted(stable_sort(s)),
        stable_sort(s).len() == s.len(),
    decreases s.len(),
{
    if s.len() > 0 {
        let p = stable_sort(s.drop_last());
        lemma_stable_sort_sorted(s.drop_last());
        lemma_insert_pos_bounds(p, s.last());
        let k = insert_pos(p, s.last()) as int;
        let q = p.insert(k, s.last());
        assert forall|i: int, j: int| 0 <= i <= j < q.len() implies q[i].0 <= q[j].0 by {
            if i < k && j > k {
                assert(p[i].0 <= p[j - 1].0);
            }
        }
    }
}

/// Sorting only moves entries: each one of the result was in the input.
pub proof fn lemma_stable_sort_elems(s: Seq<(i64, usize)>)
    ensures
        stable_sort(s).len() == s.len(),
        forall|i: int| 0 <= i < s.len() ==> s.contains(#[trigger] stable_sort(s)[i]),
    decreases s.len(),
{
    if s.len() > 0 {
        let p = s.drop_last();
        lemma_stable_sort_elems(p);
        lemma_stable_sort_sorted(p);
        let q = stable_sort(p);
        lemma_insert_pos_bounds(q, s.last());
        let k = insert_pos(q, s.last()) as int;
        assert forall|i: int| 0 <= i < s.len() implies s.contains(#[trigger] stable_sort(s)[i]) by {
            if i == k {
                assert(s[s.len() - 1] == stable_sort(s)[i]);
            } else {
                let m = if i < k { i } else { i - 1 };
                assert(stable_sort(s)[i] == q[m]);
                assert(p.contains(q[m]));
                let j = choose|j: int| 0 <= j < p.len() && p[j] == q[m];
                assert(s[j] == p[j]);
            }
        }
    }
}

/// In a sorted sequence the entries below `t` come first.
pub proof fn lemma_count_below_sorted(s: Seq<(i64, usize)>, t: i64)
    requires
        is_sorted(s),
    ensures
        count_below(s, t) <= s.len(),
        forall|i: int| 0 <= i < count_below(s, t) ==> s[i].0 < t,
        forall|i: int| count_below(s, t) <= i < s.len() ==> s[i].0 >= t,
    decreases s.len(),
{
    if s.len() > 0 {
        let p = s.drop_last();
        assert(is_sorted(p));
        lemma_count_below_sorted(p, t);
        if s.last().0 < t {
            if count_below(p, t) < p.len() {
                assert(s[count_below(p, t) as int].0 <= s[s.len() - 1].0);
                assert(p[count_below(p, t) as int] == s[count_below(p, t) as int]);
            }
        }
        assert forall|i: int| 0 <= i < count_below(s, t) implies s[i].0 < t by {
            if i < p.len() {
                assert(s[i] == p[i]);
            }
        }
        assert forall|i: int| count_below(s, t) <= i < s.len() implies s[i].0 >= t by {
            if i < p.len() {
                assert(s[i] == p[i]);
            }
        }
    }
}

/// The entries of `s` whose token is `k`, in order.
pub open spec fn with_token(s: Seq<(i64, usize)>, k: i64) -> Seq<(i64, usize)>
    decreases s.len(),
{
    if s.len() == 0 {
        s
    } else if s.last().0 == k {
        with_token(s.drop_last(), k).push(s.last())
    } else {
        with_token(s.drop_last(), k)
    }
}

proof fn lemma_with_token_none(s: Seq<(i64, usize)>, k: i64)
    requires
        forall|i: int| 0 <= i < s.len() ==> s[i].0 != k,
    ensures
        with_token(s, k) == Seq::<(i64, usize)>::empty(),
    decreases s.len(),
{
    if s.len() > 0 {
        lemma_with_token_none(s.drop_last(), k);
    }
}

proof fn lemma_with_token_some(s: Seq<(i64, usize)>, k: i64)
    requires
        with_token(s, k).len() > 0,
    ensures
        exists|j: int| 0 <= j < s.len() && s[j].0 == k,
    decreases s.len(),
{
    if s.last().0 != k {
        lemma_with_token_some(s.drop_last(), k);
        let j = choose|j: int| 0 <= j < s.drop_last().len() && s.drop_last()[j].0 == k;
        assert(s[j].0 == k);
    } else {
        assert(s[s.len() - 1].0 == k);
    }
}

/// Picking the entries of one token distributes over concatenation.
pub proof fn lemma_with_token_add(a: Seq<(i64, usize)>, b: Seq<(i64, usize)>, k: i64)
    ensures
        with_token(a + b, k) == with_token(a, k) + with_token(b, k),
    decreases b.len(),
{
    if b.len() == 0 {
        assert(a + b == a);
        assert(with_token(a, k) + with_token(b, k) == with_token(a, k));
    } else {
        lemma_with_token_add(a, b.drop_last(), k);
        assert((a + b).drop_last() == a + b.drop_last());
        assert((a + b).last() == b.last());
        if b.last().0 == k {
            assert(with_token(a, k) + with_token(b, k) == (with_token(a, k) + with_token(b.drop_last(), k)).push(b.last()));
        }
    }
}

proof fn lemma_with_token_single(x: (i64, usize), k: i64)
    ensures
        with_token(seq![x], k) == (if x.0 == k { seq![x] } else { Seq::<(i64, usize)>::empty() }),
{
    let e = Seq::<(i64, usize)>::empty();
    assert(seq![x].drop_last() == e);
    assert(seq![x].last() == x);
    assert(with_token(e, k) == e);
    assert(with_token(seq![x], k) == if x.0 == k { with_token(e, k).push(x) } else { with_token(e, k) });
    assert(Seq::<(i64, usize)>::empty().push(x) == seq![x]);
}

/// Stable sorting keeps, for every token, exactly the entries with that
/// token and in their input order; it only moves entries of different
/// tokens past one another.
pub proof fn lemma_stable_sort_keeps_ties(s: Seq<(i64, usize)>, k: i64)
    ensures
        with_token(stable_sort(s), k) == with_token(s, k),
    decreases s.len(),
{
    if s.len() > 0 {
        let p = s.drop_last();
        let x = s.last();
        lemma_stable_sort_keeps_ties(p, k);
        lemma_stable_sort_sorted(p);
        let q = stable_sort(p);
        lemma_insert_pos_bounds(q, x);
        let pos = insert_pos(q, x) as int;
        assert(q.insert(pos, x) == q.take(pos) + seq![x] + q.skip(pos));
        assert(q == q.take(pos) + q.skip(pos));
        lemma_with_token_add(q.take(pos) + seq![x], q.skip(pos), k);
        lemma_with_token_add(q.take(pos), seq![x], k);
        lemma_with_token_add(q.take(pos), q.skip(pos), k);
        lemma_with_token_single(x, k);
        if x.0 == k {
            lemma_with_token_none(q.skip(pos), k);
            assert(with_token(q.take(pos), k) + seq![x] == with_token(q.take(pos), k).push(x));
            assert(with_token(q.take(pos), k) + Seq::<(i64, usize)>::empty() == with_token(q.take(pos), k));
        } else {
            assert(with_token(q.take(pos), k) + Seq::<(i64, usize)>::empty() == with_token(q.take(pos), k));
        }
    }
}

/// Two sorted sequences that hold, for every token, the same entries in
/// the same order are equal: a stable sort has one result.
pub proof fn lemma_sorted_same_ties_equal(a: Seq<(i64, usize)>, b: Seq<(i64, usize)>)
    requires
        is_sorted(a),
        is_sorted(b),
        forall|k: i64| with_token(a, k) == with_token(b, k),
    ensures
        a == b,
    decreases a.len() + b.len(),
{
    if a.len() == 0 && b.len() == 0 {
        assert(a =~= b);
    } else if a.len() == 0 {
        assert(with_token(b, b.last().0).len() > 0);
        assert(with_token(a, b.last().0).len() == 0);
    } else if b.len() == 0 {
        assert(with_token(a, a.last().0).len() > 0);
        assert(with_token(b, a.last().0).len() == 0);
    } else {
        let ma = a.last().0;
        let mb = b.last().0;
        assert(with_token(b, ma).len() > 0) by {
            assert(with_token(a, ma).len() > 0);
        }
        lemma_with_token_some(b, ma);
        let jb = choose|j: int| 0 <= j < b.len() && b[j].0 == ma;
        assert(b[jb].0 <= b[b.len() - 1].0);
        assert(with_token(a, mb).len() > 0) by {
            assert(with_token(b, mb).len() > 0);
        }
        lemma_with_token_some(a, mb);
        let ja = choose|j: int| 0 <= j < a.len() && a[j].0 == mb;
        assert(a[ja].0 <= a[a.len() - 1].0);
        assert(ma == mb);
        assert(with_token(a, ma).last() == a.last());
        assert(with_token(b, ma).last() == b.last());
        let a2 = a.drop_last();
        let b2 = b.drop_last();
        assert forall|k: i64| with_token(a2, k) == with_token(b2, k) by {
            if k == ma {
                assert(with_token(a2, k) == with_token(a, k).drop_last());
                assert(with_token(b2, k) == with_token(b, k).drop_last());
            } else {
                assert(with_token(a2, k) == with_token(a, k));
                assert(with_token(b2, k) == with_token(b, k));
            }
        }
        lemma_sorted_same_ties_equal(a2, b2);
        assert(a =~= a2.push(a.last()));
        assert(b =~= b2.push(b.last()));
    }
}

/// Merges two sorted runs, `a` before `b`: on equal tokens the entry of `a`
/// comes first.
fn merge(a: Vec<(i64, usize)>, b: Vec<(i64, usize)>) -> (r: Vec<(i64, usize)>)
    requires
        is_sorted(a@),
        is_sorted(b@),
    ensures
        is_sorted(r@),
        forall|k: i64| with_token(r@, k) == with_token(a@, k) + with_token(b@, k),
{
    let mut out: Vec<(i64, usize)> = Vec::new();
    let mut i: usize = 0;
    let mut j: usize = 0;
    assert forall|k: i64|
        with_token(out@, k) + with_token(a@.skip(0), k) + with_token(b@.skip(0), k)
            == with_token(a@, k) + with_token(b@, k) by {
        assert(a@.skip(0) == a@);
        assert(b@.skip(0) == b@);
        assert(with_token(out@, k) == Seq::<(i64, usize)>::empty());
        assert(Seq::<(i64, usize)>::empty() + with_token(a@, k) == with_token(a@, k));
    }
    while i < a.len() || j < b.len()
        invariant
            i <= a.len(),
            j <= b.len(),
            is_sorted(a@),
            is_sorted(b@),
            is_sorted(out@),
            out.len() > 0 && i < a.len() ==> out@.last().0 <= a@[i as int].0,
            out.len() > 0 && j < b.len() ==> out@.last().0 <= b@[j as int].0,
            forall|k: i64|
                with_token(out@, k) + with_token(a@.skip(i as int), k) + with_token(b@.skip(j as int), k)
                    == with_token(a@, k) + with_token(b@, k),
        decreases a.len() - i + b.len() - j,
    {
        let ghost o = out@;
        let ghost ra = a@.skip(i as int);
        let ghost rb = b@.skip(j as int);
        if j >= b.len() || (i < a.len() && a[i].0 <= b[j].0) {
            let x = a[i];
            out.push(x);
            assert(ra == seq![x] + a@.skip(i + 1));
            assert forall|k: i64|
                with_token(out@, k) + with_token(a@.skip(i + 1), k) + with_token(rb, k)
                    == with_token(a@, k) + with_token(b@, k) by {
                lemma_with_token_add(o, seq![x], k);
                lemma_with_token_add(seq![x], a@.skip(i + 1), k);
                lemma_with_token_single(x, k);
                assert(out@ == o + seq![x]);
                assert(with_token(out@, k) + with_token(a@.skip(i + 1), k) + with_token(rb, k)
                    =~= with_token(o, k) + with_token(ra, k) + with_token(rb, k));
            }
            i = i + 1;
        } else {
            let y = b[j];
            out.push(y);
            assert(rb == seq![y] + b@.skip(j + 1));
            assert forall|k: i64|
                with_token(out@, k) + with_token(ra, k) + with_token(b@.skip(j + 1), k)
                    == with_token(a@, k) + with_token(b@, k) by {
                lemma_with_token_add(o, seq![y], k);
                lemma_with_token_add(seq![y], b@.skip(j + 1), k);
                lemma_with_token_single(y, k);
                assert(out@ == o + seq![y]);
                if k == y.0 {
                    assert forall|m: int| 0 <= m < ra.len() implies ra[m].0 != k by {
                        assert(a@[i as int].0 <= a@[i + m].0);
                    }
                    lemma_with_token_none(ra, k);
                }
                assert(with_token(out@, k) + with_token(ra, k) + with_token(b@.skip(j + 1), k)
                    =~= with_token(o, k) + with_token(ra, k) + with_token(rb, k));
            }
            j = j + 1;
        }
    }
    assert forall|k: i64| with_token(out@, k) == with_token(a@, k) + with_token(b@, k) by {
        assert(a@.skip(i as int) == Seq::<(i64, usize)>::empty());
        assert(b@.skip(j as int) == Seq::<(i64, usize)>::empty());
        assert(with_token(Seq::<(i64, usize)>::empty(), k) == Seq::<(i64, usize)>::empty());
        assert(with_token(out@, k) + Seq::<(i64, usize)>::empty() + Seq::<(i64, usize)>::empty()
            == with_token(out@, k));
    }
    out
}

/// The entries of `s` from `lo` up to `hi`.
pub(crate) fn copy_range(s: &Vec<(i64, usize)>, lo: usize, hi: usize) -> (r: Vec<(i64, usize)>)
    requires
        lo <= hi <= s.len(),
    ensures
        r@ == s@.subrange(lo as int, hi as int),
{
    let mut out: Vec<(i64, usize)> = Vec::new();
    let mut i: usize = lo;
    while i < hi
        invariant
            lo <= i <= hi <= s.len(),
            out@ == s@.subrange(lo as int, i as int),
        decreases hi - i,
    {
        out.push(s[i]);
        i = i + 1;
    }
    out
}

/// Sorts by token in O(n log n), keeping the input order of equal tokens.
fn merge_sort(s: Vec<(i64, usize)>) -> (r: Vec<(i64, usize)>)
    ensures
        is_sorted(r@),
        forall|k: i64| with_token(r@, k) == with_token(s@, k),
    decreases s.len(),
{
    if s.len() <= 1 {
        return s;
    }
    let mid = s.len() / 2;
    let left = copy_range(&s, 0, mid);
    let right = copy_range(&s, mid, s.len());
    assert(s@ == left@ + right@);
    let l = merge_sort(left);
    let r = merge_sort(right);
    let out = merge(l, r);
    assert forall|k: i64| with_token(out@, k) == with_token(s@, k) by {
        lemma_with_token_add(left@, right@, k);
    }
    out
}

/// A ring of (token, value) entries kept ascending by token.
pub struct TokenRing {
    pub entries: Vec<(i64, usize)>,
}

impl TokenRing {
    pub open spec fn wf(&self) -> bool {
        is_sorted(self.entries@)
    }

    /// An empty ring.
    pub fn new_empty() -> (r: TokenRing)
        ensures
            r.entries@ == Seq::<(i64, usize)>::empty(),
            r.wf(),
    {
        TokenRing { entries: Vec::new() }
    }

    /// Builds a ring from entries in any order, sorting them by token; entries
    /// with equal tokens keep the order in which they were given.
    pub fn new(entries: Vec<(i64, usize)>) -> (r: TokenRing)
        ensures
            r.entries@ == stable_sort(entries@),
            r.wf(),
    {
        let sorted = merge_sort(entries);
        proof {
            lemma_stable_sort_sorted(entries@);
            assert forall|k: i64| with_token(sorted@, k) == with_token(stable_sort(entries@), k) by {
                lemma_stable_sort_keeps_ties(entries@, k);
            }
            lemma_sorted_same_ties_equal(sorted@, stable_sort(entries@));
        }
        TokenRing { entries: sorted }
    }

    /// Position of the first entry whose token is at least `t`; the number of
    /// entries when there is none.
    pub fn start_index(&self, t: i64) -> (r: usize)
        requires
            self.wf(),
        ensures
            r == count_below(self.entries@, t),
    {
        proof {
            lemma_count_below_sorted(self.entries@, t);
        }
        let mut i: usize = 0;
        while i < self.entries.len() && self.entries[i].0 < t
            invariant
                i <= self.entries.len(),
                self.wf(),
                forall|k: int| 0 <= k < i ==> self.entries@[k].0 < t,
                i <= count_below(self.entries@, t),
            decreases self.entries.len() - i,
        {
            proof {
                lemma_count_below_sorted(self.entries@, t);
            }
            i = i + 1;
        }
        i
    }

    /// One lap of the ring from the first entry with token at least `t`:
    /// ascending to the last entry, then from the first entry on, each entry
    /// once.
    pub fn ring_range(&self, t: i64) -> (r: Vec<(i64, usize)>)
        requires
            self.wf(),
        ensures
            r@ == rotate(self.entries@, count_below(self.entries@, t) as int),
    {
        let start = self.start_index(t);
        proof {
            lemma_count_below_sorted(self.entries@, t);
        }
        let n = self.entries.len();
        let mut out: Vec<(i64, usize)> = Vec::new();
        let mut i: usize = start;
        while i < n
            invariant
                start <= i <= n,
                n == self.entries.len(),
                out@ == self.entries@.subrange(start as int, i as int),
            decreases n - i,
        {
            out.push(self.entries[i]);
            i = i + 1;
        }
        let mut j: usize = 0;
        while j < start
            invariant
                j <= start <= n,
                n == self.entries.len(),
                out@ == self.entries@.skip(start as int) + self.entries@.take(j as int),
            decreases start - j,
        {
            out.push(self.entries[j]);
            assert(self.entries@.take(j + 1) == self.entries@.take(j as int).push(self.entries@[j as int]));
            j = j + 1;
        }
        out
    }
}

/// When `t` lies beyond every stored token, the lap from `t` wraps round:
/// it starts at the entry with the smallest token and goes on ascending.
pub proof fn lemma_range_wraps_past_last(ring: TokenRing, t: i64)
    requires
        ring.wf(),
        forall|i: int| 0 <= i < ring.entries@.len() ==> ring.entries@[i].0 < t,
    ensures
        rotate(ring.entries@, count_below(ring.entries@, t) as int) == ring.entries@,
        forall|i: int, j: int|
            0 <= i <= j < ring.entries@.len() ==> ring.entries@[i].0 <= ring.entries@[j].0,
{
    let s = ring.entries@;
    lemma_count_below_sorted(s, t);
    assert(count_below(s, t) == s.len());
    assert(rotate(s, s.len() as int) =~= s);
}

} // verus!
