use vstd::prelude::*;

verus! {

/// The position of the last entry of `ids[..n]` equal to `id`, if any.
pub open spec fn last_match(ids: Seq<Seq<char>>, id: Seq<char>, n: int) -> Option<int>
    decreases n,
{
    if n <= 0 {
        None
    } else if ids[n - 1] == id {
        Some(n - 1)
    } else {
        last_match(ids, id, n - 1)
    }
}

/// The node that an identifier resolves to: the newest node carrying it.
pub open spec fn resolve(ids: Seq<Seq<char>>, id: Seq<char>) -> Option<int> {
    last_match(ids, id, ids.len() as int)
}

/// The last match, if any, lies in range and matches; without one, nothing matches.
pub proof fn lemma_last_match_bounds(ids: Seq<Seq<char>>, id: Seq<char>, n: int)
    requires
        0 <= n <= ids.len(),
    ensures
        match last_match(ids, id, n) {
            Some(j) => 0 <= j < n && ids[j] == id,
            None => forall|j: int| 0 <= j < n ==> ids[j] != id,
        },
    decreases n,
{
    if n > 0 && ids[n - 1] != id {
        lemma_last_match_bounds(ids, id, n - 1);
    }
}

/// The bucket of an identifier among `m` buckets: a polynomial hash of its
/// characters, reduced modulo `m` after each step.
pub open spec fn bucket_of(s: Seq<char>, m: int) -> int
    decreases s.len(),
{
    if s.len() == 0 {
        0
    } else {
        (bucket_of(s.drop_last(), m) * 31 + (s.last() as u32) as int) % m
    }
}

/// The position of the last entry of `ids[..n]` in bucket `b`, if any.
pub open spec fn last_in_bucket(ids: Seq<Seq<char>>, m: int, b: int, n: int) -> Option<int>
    decreases n,
{
    if n <= 0 {
        None
    } else if bucket_of(ids[n - 1], m) == b {
        Some(n - 1)
    } else {
        last_in_bucket(ids, m, b, n - 1)
    }
}

/// A position stored as one more than itself, zero standing for none.
pub open spec fn link(o: Option<int>) -> int {
    match o {
        Some(k) => k + 1,
        None => 0,
    }
}

proof fn lemma_last_in_bucket(ids: Seq<Seq<char>>, m: int, b: int, n: int)
    requires
        0 <= n <= ids.len(),
    ensures
        match last_in_bucket(ids, m, b, n) {
            Some(k) => 0 <= k < n && bucket_of(ids[k], m) == b && forall|j: int|
                k < j < n ==> bucket_of(#[trigger] ids[j], m) != b,
            None => forall|j: int| 0 <= j < n ==> bucket_of(#[trigger] ids[j], m) != b,
        },
    decreases n,
{
    if n > 0 {
        lemma_last_in_bucket(ids, m, b, n - 1);
    }
}

proof fn lemma_last_in_bucket_prefix(ids: Seq<Seq<char>>, id: Seq<char>, m: int, b: int, n: int)
    requires
        0 <= n <= ids.len(),
    ensures
        last_in_bucket(ids.push(id), m, b, n) == last_in_bucket(ids, m, b, n),
    decreases n,
{
    if n > 0 {
        assert(ids.push(id)[n - 1] == ids[n - 1]);
        lemma_last_in_bucket_prefix(ids, id, m, b, n - 1);
    }
}

/// No entry of `ids[a..t]` equals `id`, so the last match below `t` is the
/// last one below `a`.
proof fn lemma_last_match_skip(ids: Seq<Seq<char>>, id: Seq<char>, a: int, t: int)
    requires
        0 <= a <= t <= ids.len(),
        forall|j: int| a <= j < t ==> #[trigger] ids[j] != id,
    ensures
        last_match(ids, id, t) == last_match(ids, id, a),
    decreases t - a,
{
    if t > a {
        lemma_last_match_skip(ids, id, a, t - 1);
    }
}

/// Maps each identifier to the newest node that carries it.
///
/// Entries are kept in node order and chained by bucket: `heads[b]` links
/// to the newest entry of bucket `b`, `next[j]` to the entry before `j` in
/// the same bucket. A lookup walks one chain from its newest entry, so an
/// identifier that occurs twice resolves to its later node.
pub struct AsinIndex {
    ids: Vec<String>,
    heads: Vec<usize>,
    next: Vec<usize>,
}

impl View for AsinIndex {
    type V = Seq<Seq<char>>;

    closed spec fn view(&self) -> Seq<Seq<char>> {
        self.ids@.map_values(|s: String| s@)
    }
}

impl AsinIndex {
    /// The chains agree with the identifiers.
    pub closed spec fn wf(&self) -> bool {
        let m = self.heads@.len() as int;
        &&& 0 < m < 0x1_0000_0000
        &&& self.next@.len() == self.ids@.len()
        &&& self.ids@.len() < usize::MAX
        &&& forall|b: int|
            0 <= b < m ==> #[trigger] self.heads@[b] as int == link(
                last_in_bucket(self@, m, b, self@.len() as int),
            )
        &&& forall|j: int|
            0 <= j < self.next@.len() ==> #[trigger] self.next@[j] as int == link(
                last_in_bucket(self@, m, bucket_of(self@[j], m), j),
            )
    }

    /// An empty index with a single bucket.
    pub fn new() -> (r: AsinIndex)
        ensures
            r.wf(),
            r@ == Seq::<Seq<char>>::empty(),
    {
        AsinIndex::with_capacity(1)
    }

    /// An empty index sized for about `n` identifiers.
    pub fn with_capacity(n: usize) -> (r: AsinIndex)
        ensures
            r.wf(),
            r@ == Seq::<Seq<char>>::empty(),
    {
        let m: usize = if n == 0 {
            1
        } else if n > 0xffff_ffff {
            0xffff_ffff
        } else {
            n
        };
        let mut heads: Vec<usize> = Vec::new();
        let mut i: usize = 0;
        while i < m
            invariant
                i <= m,
                heads@.len() == i,
                forall|b: int| 0 <= b < i ==> heads@[b] == 0,
            decreases m - i,
        {
            heads.push(0);
            i = i + 1;
        }
        let r = AsinIndex { ids: Vec::new(), heads, next: Vec::new() };
        assert(r@ =~= Seq::<Seq<char>>::empty());
        r
    }

    fn bucket(&self, id: &String) -> (r: usize)
        requires
            self.wf(),
        ensures
            r as int == bucket_of(id@, self.heads@.len() as int),
            r < self.heads@.len(),
    {
        let cs = crate::text::chars_of(id);
        let m = self.heads.len() as u64;
        let mut h: u64 = 0;
        let mut i: usize = 0;
        while i < cs.len()
            invariant
                m == self.heads@.len(),
                0 < m < 0x1_0000_0000,
                cs@ == id@,
                i <= cs@.len(),
                h < m,
                h as int == bucket_of(cs@.take(i as int), m as int),
            decreases cs@.len() - i,
        {
            assert(cs@.take(i + 1).drop_last() =~= cs@.take(i as int));
            let c = cs[i] as u32 as u64;
            assert(h * 31 + c < 0x1_0000_0000 * 32) by (nonlinear_arith)
                requires
                    h < 0x1_0000_0000,
                    c < 0x1_0000_0000,
            ;
            h = (h * 31 + c) % m;
            i = i + 1;
        }
        assert(cs@.take(cs@.len() as int) =~= id@);
        h as usize
    }

    /// Registers `id` as the identifier of the next node.
    pub fn insert(&mut self, id: String)
        requires
            old(self).wf(),
            old(self)@.len() + 1 < usize::MAX,
        ensures
            final(self).wf(),
            final(self)@ == old(self)@.push(id@),
    {
        let ghost ids0 = self@;
        let ghost m = self.heads@.len() as int;
        let b = self.bucket(&id);
        let j = self.ids.len();
        let prev = self.heads[b];
        self.next.push(prev);
        self.heads.set(b, j + 1);
        self.ids.push(id);
        let ghost ids1 = self@;
        assert(ids1 =~= ids0.push(id@));
        proof {
            assert forall|c: int| 0 <= c < m implies #[trigger] self.heads@[c] as int == link(
                last_in_bucket(ids1, m, c, ids1.len() as int),
            ) by {
                lemma_last_in_bucket_prefix(ids0, id@, m, c, ids0.len() as int);
            }
            assert forall|k: int| 0 <= k < self.next@.len() implies #[trigger] self.next@[k] as int
                == link(last_in_bucket(ids1, m, bucket_of(ids1[k], m), k)) by {
                lemma_last_in_bucket_prefix(ids0, id@, m, bucket_of(ids1[k], m), k);
                if k < j {
                    assert(ids1[k] == ids0[k]);
                }
            }
        }
    }

    /// The number of registered nodes.
    pub fn len(&self) -> (r: usize)
        ensures
            r == self@.len(),
    {
        self.ids.len()
    }

    /// The node that `id` resolves to, if any.
    pub fn get(&self, id: &String) -> (r: Option<usize>)
        requires
            self.wf(),
        ensures
            match r {
                Some(j) => resolve(self@, id@) == Some(j as int),
                None => resolve(self@, id@) is None,
            },
    {
        let ghost ids = self@;
        let ghost m = self.heads@.len() as int;
        let b = self.bucket(id);
        let mut cur = self.heads[b];
        let ghost mut t: int = ids.len() as int;
        proof {
            lemma_last_in_bucket(ids, m, b as int, t);
        }
        while cur != 0
            invariant
                self.wf(),
                ids == self@,
                m == self.heads@.len(),
                b as int == bucket_of(id@, m),
                0 <= t <= ids.len(),
                cur as int == link(last_in_bucket(ids, m, b as int, t)),
                resolve(ids, id@) == last_match(ids, id@, t),
            decreases t,
        {
            let k = cur - 1;
            proof {
                lemma_last_in_bucket(ids, m, b as int, t);
                assert forall|j: int| k < j < t implies #[trigger] ids[j] != id@ by {
                    if ids[j] == id@ {
                        assert(bucket_of(ids[j], m) == b);
                    }
                }
                lemma_last_match_skip(ids, id@, k + 1, t);
                assert(self.ids@[k as int]@ == ids[k as int]);
            }
            if self.ids[k] == *id {
                return Some(k);
            }
            proof {
                assert(self.next@[k as int] as int == link(last_in_bucket(ids, m, bucket_of(ids[k as int], m), k as int)));
                t = k as int;
            }
            cur = self.next[k];
        }
        proof {
            lemma_last_in_bucket(ids, m, b as int, t);
            assert forall|j: int| 0 <= j < t implies #[trigger] ids[j] != id@ by {
                if ids[j] == id@ {
                    assert(bucket_of(ids[j], m) == b);
                }
            }
            lemma_last_match_skip(ids, id@, 0, t);
        }
        None
    }
}

} // verus!
