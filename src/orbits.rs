use vstd::prelude::*;

verus! {

/// A formed body as the index holds it: its semi-major axis, the interval
/// `[inner, outer)` its gravity sweeps, its mass, the mass below which a body
/// that runs into it is captured as a moon rather than merged, and the caller's
/// handle for it.
#[derive(Clone, Copy, Debug, PartialEq, Eq, Structural)]
pub struct Orbit {
    pub a: u64,
    pub inner: u64,
    pub outer: u64,
    pub mass: u64,
    pub capture_limit: u64,
    pub id: u64,
}

impl Orbit {
    /// The swept intervals of the two bodies meet.
    pub open spec fn overlaps(self, other: Orbit) -> bool {
        self.inner < other.outer && other.inner < self.outer
    }
}

/// Ascending by semi-major axis.
pub open spec fn orbits_sorted(s: Seq<Orbit>) -> bool {
    forall|i: int, j: int| 0 <= i < j < s.len() ==> (#[trigger] s[i]).a <= (#[trigger] s[j]).a
}

/// No body before index `k` overlaps `c`.
pub open spec fn clear_before(s: Seq<Orbit>, c: Orbit, k: int) -> bool {
    forall|j: int| 0 <= j < k ==> !(#[trigger] s[j]).overlaps(c)
}

/// `i` is the first body, in ascending order, that `c` runs into.
///
/// Of several bodies that `c` meets at once the innermost is taken. The keys
/// keep the order of the axes but not their differences, so which of two such
/// bodies lies nearer to `c` cannot be read from them; and a merged body is
/// tested again against the rest, so every overlap is still resolved, one
/// body at a time, outward.
pub open spec fn first_overlap(s: Seq<Orbit>, c: Orbit, i: int) -> bool {
    0 <= i < s.len() && s[i].overlaps(c) && clear_before(s, c, i)
}

/// `p` is where a body at `a` goes: after every body not beyond it and before
/// every body beyond it.
pub open spec fn insertion_point(s: Seq<Orbit>, a: u64, p: int) -> bool {
    &&& 0 <= p <= s.len()
    &&& forall|j: int| 0 <= j < p ==> (#[trigger] s[j]).a <= a
    &&& forall|j: int| p <= j < s.len() ==> (#[trigger] s[j]).a > a
}

/// What happens to a body `c` that arrives among the formed bodies.
#[derive(Clone, Copy, Debug, PartialEq, Eq, Structural)]
pub enum Resolution {
    /// It runs into nothing and takes its place at this position.
    Insert(usize),
    /// It runs into the body at this position, which is heavy enough to
    /// capture it as a moon.
    Capture(usize),
    /// It runs into the body at this position and the two coalesce.
    Merge(usize),
    /// It runs into nothing and is not kept.
    Discard,
}

/// The decision for `c`: the first body it runs into decides between capture
/// and merge; with no such body it stands alone if `standalone` allows.
pub open spec fn resolves(s: Seq<Orbit>, c: Orbit, standalone: bool, r: Resolution) -> bool {
    match r {
        Resolution::Insert(p) => standalone && clear_before(s, c, s.len() as int)
            && insertion_point(s, c.a, p as int),
        Resolution::Capture(i) => first_overlap(s, c, i as int) && c.mass < s[i as int].capture_limit,
        Resolution::Merge(i) => first_overlap(s, c, i as int) && c.mass >= s[i as int].capture_limit,
        Resolution::Discard => !standalone && clear_before(s, c, s.len() as int),
    }
}

/// No two bodies' swept intervals meet: the state the collision resolution
/// leaves behind.
pub open spec fn orbits_disjoint(s: Seq<Orbit>) -> bool {
    forall|i: int, j: int|
        0 <= i < s.len() && 0 <= j < s.len() && i != j ==> !(#[trigger] s[i]).overlaps(
            #[trigger] s[j],
        )
}

/// Each body's axis lies within its own swept interval.
pub open spec fn axes_within(s: Seq<Orbit>) -> bool {
    forall|i: int| 0 <= i < s.len() ==> (#[trigger] s[i]).inner <= s[i].a < s[i].outer
}

/// Bodies in order whose swept intervals contain their axes and do not meet
/// stand in strictly ascending order.
pub proof fn lemma_disjoint_strictly_ordered(s: Seq<Orbit>, i: int, j: int)
    requires
        orbits_sorted(s),
        orbits_disjoint(s),
        axes_within(s),
        0 <= i < j < s.len(),
    ensures
        s[i].a < s[j].a,
{
    assert(s[i].a <= s[j].a);
    assert(!s[i].overlaps(s[j]));
}

/// Putting in a body that meets none keeps the intervals apart.
proof fn lemma_disjoint_insert(s: Seq<Orbit>, p: int, c: Orbit)
    requires
        orbits_disjoint(s),
        clear_before(s, c, s.len() as int),
        0 <= p <= s.len(),
    ensures
        orbits_disjoint(s.insert(p, c)),
{
    let t = s.insert(p, c);
    assert forall|i: int, j: int|
        0 <= i < t.len() && 0 <= j < t.len() && i != j implies !(#[trigger] t[i]).overlaps(
        #[trigger] t[j],
    ) by {
        let si = if i < p { i } else { i - 1 };
        let sj = if j < p { j } else { j - 1 };
        if i == p {
            assert(t[j] == s[sj]);
            assert(!s[sj].overlaps(c));
        } else if j == p {
            assert(t[i] == s[si]);
            assert(!s[si].overlaps(c));
        } else {
            assert(t[i] == s[si] && t[j] == s[sj]);
        }
    }
}

/// Taking a body out keeps the intervals apart.
proof fn lemma_disjoint_remove(s: Seq<Orbit>, k: int)
    requires
        orbits_disjoint(s),
        0 <= k < s.len(),
    ensures
        orbits_disjoint(s.remove(k)),
{
    let t = s.remove(k);
    assert forall|i: int, j: int|
        0 <= i < t.len() && 0 <= j < t.len() && i != j implies !(#[trigger] t[i]).overlaps(
        #[trigger] t[j],
    ) by {
        let si = if i < k { i } else { i + 1 };
        let sj = if j < k { j } else { j + 1 };
        assert(t[i] == s[si] && t[j] == s[sj]);
    }
}

/// The decision for a body is one and only one: whatever resolves `c` against
/// the same bodies comes out the same.
pub proof fn lemma_resolution_unique(
    s: Seq<Orbit>,
    c: Orbit,
    standalone: bool,
    r1: Resolution,
    r2: Resolution,
)
    requires
        resolves(s, c, standalone, r1),
        resolves(s, c, standalone, r2),
    ensures
        r1 == r2,
{
    match (r1, r2) {
        (Resolution::Insert(p), Resolution::Insert(q)) => {
            if p < q {
                assert(s[p as int].a > c.a);
            } else if q < p {
                assert(s[q as int].a > c.a);
            }
        },
        (Resolution::Insert(p), _) => {
            match r2 {
                Resolution::Capture(i) => assert(!s[i as int].overlaps(c)),
                Resolution::Merge(i) => assert(!s[i as int].overlaps(c)),
                _ => {},
            }
        },
        (Resolution::Discard, _) => {
            match r2 {
                Resolution::Capture(i) => assert(!s[i as int].overlaps(c)),
                Resolution::Merge(i) => assert(!s[i as int].overlaps(c)),
                _ => {},
            }
        },
        (Resolution::Capture(i), _) | (Resolution::Merge(i), _) => {
            match r2 {
                Resolution::Capture(j) | Resolution::Merge(j) => {
                    if i < j {
                        assert(!s[i as int].overlaps(c));
                    } else if j < i {
                        assert(!s[j as int].overlaps(c));
                    }
                },
                _ => assert(!s[i as int].overlaps(c)),
            }
        },
    }
}

/// The ways a step of bombardment may change the formed bodies: not at all,
/// by losing one, or by one being replaced and put back in order.
pub open spec fn bombardment_step(before: Seq<Orbit>, after: Seq<Orbit>) -> bool {
    ||| after == before
    ||| exists|i: int| 0 <= i < before.len() && after == before.remove(i)
    ||| exists|i: int, p: int, o: Orbit|
        0 <= i < before.len() && 0 <= p <= before.len() - 1 && after == #[trigger] before.remove(
            i,
        ).insert(p, o)
}

/// Bombardment cannot add a body: over any run of bombardment steps the
/// number of formed bodies never grows, whatever the number of steps.
pub proof fn lemma_bombardment_never_adds(runs: Seq<Seq<Orbit>>)
    requires
        runs.len() > 0,
        forall|k: int| 0 <= k < runs.len() - 1 ==> bombardment_step(#[trigger] runs[k], runs[k + 1]),
    ensures
        runs.last().len() <= runs[0].len(),
    decreases runs.len(),
{
    if runs.len() > 1 {
        let t = runs.drop_last();
        assert forall|k: int| 0 <= k < t.len() - 1 implies bombardment_step(
            #[trigger] t[k],
            t[k + 1],
        ) by {
            assert(t[k] == runs[k] && t[k + 1] == runs[k + 1]);
        }
        lemma_bombardment_never_adds(t);
        let k = runs.len() - 2;
        assert(bombardment_step(runs[k], runs[k + 1]));
        assert(runs[k] == t.last());
    }
}

proof fn lemma_insert_pair_ordered(
    s: Seq<Orbit>,
    x: Orbit,
    y: Orbit,
    p1: int,
    p2: int,
    q1: int,
    q2: int,
)
    requires
        orbits_sorted(s),
        x.a < y.a,
        insertion_point(s, x.a, p1),
        insertion_point(s.insert(p1, x), y.a, p2),
        insertion_point(s, y.a, q1),
        insertion_point(s.insert(q1, y), x.a, q2),
    ensures
        s.insert(p1, x).insert(p2, y) == s.insert(q1, y).insert(q2, x),
{
    let sx = s.insert(p1, x);
    let sy = s.insert(q1, y);
    assert(p1 <= q1) by {
        if p1 > q1 {
            assert(s[q1].a > y.a);
            assert(s[q1].a <= x.a);
        }
    }
    assert(q2 == p1) by {
        if q2 < p1 {
            assert(sy[q2] == s[q2]);
            assert(s[q2].a <= x.a);
        } else if q2 > p1 {
            if p1 < q1 {
                assert(sy[p1] == s[p1]);
                assert(s[p1].a > x.a);
            } else {
                assert(sy[p1] == y);
            }
        }
    }
    assert(p2 == q1 + 1) by {
        if p2 < q1 + 1 {
            if p2 == p1 {
                assert(sx[p2] == x);
                assert(x.a > y.a);
            } else if p2 < p1 {
                assert(sx[p2] == s[p2]);
                assert(s[p2].a <= x.a);
            } else {
                assert(sx[p2] == s[p2 - 1]);
                assert(s[p2 - 1].a <= y.a);
            }
        } else if p2 > q1 + 1 {
            assert(sx[q1 + 1] == s[q1]);
            assert(s[q1].a > y.a);
        }
    }
    assert(sx.insert(p2, y) =~= sy.insert(q2, x));
}

/// The index keeps no trace of the order its bodies came in: two bodies with
/// different axes, put in one after the other, give the same index whichever
/// comes first.
pub proof fn lemma_insert_order_irrelevant(
    s: Seq<Orbit>,
    x: Orbit,
    y: Orbit,
    p1: int,
    p2: int,
    q1: int,
    q2: int,
)
    requires
        orbits_sorted(s),
        x.a != y.a,
        insertion_point(s, x.a, p1),
        insertion_point(s.insert(p1, x), y.a, p2),
        insertion_point(s, y.a, q1),
        insertion_point(s.insert(q1, y), x.a, q2),
    ensures
        s.insert(p1, x).insert(p2, y) == s.insert(q1, y).insert(q2, x),
{
    if x.a < y.a {
        lemma_insert_pair_ordered(s, x, y, p1, p2, q1, q2);
    } else {
        lemma_insert_pair_ordered(s, y, x, q1, q2, p1, p2);
    }
}

/// The formed bodies, ascending by semi-major axis.
pub struct OrbitIndex {
    orbits: Vec<Orbit>,
}

impl View for OrbitIndex {
    type V = Seq<Orbit>;

    closed spec fn view(&self) -> Seq<Orbit> {
        self.orbits@
    }
}

impl OrbitIndex {
    pub open spec fn wf(&self) -> bool {
        orbits_sorted(self@)
    }

    pub open spec fn disjoint(&self) -> bool {
        orbits_disjoint(self@)
    }

    pub fn new() -> (r: OrbitIndex)
        ensures
            r.wf(),
            r@.len() == 0,
    {
        OrbitIndex { orbits: Vec::new() }
    }

    pub fn len(&self) -> (r: usize)
        ensures
            r == self@.len(),
    {
        self.orbits.len()
    }

    pub fn orbits(&self) -> (r: &Vec<Orbit>)
        ensures
            r@ == self@,
    {
        &self.orbits
    }

    /// The first body, in ascending order, whose swept interval meets `c`'s.
    pub fn find_overlap(&self, c: &Orbit) -> (r: Option<usize>)
        ensures
            match r {
                Some(i) => first_overlap(self@, *c, i as int),
                None => clear_before(self@, *c, self@.len() as int),
            },
    {
        let mut i: usize = 0;
        while i < self.orbits.len()
            invariant
                0 <= i <= self@.len(),
                clear_before(self@, *c, i as int),
            decreases self@.len() - i,
        {
            let o = self.orbits[i];
            if o.inner < c.outer && c.inner < o.outer {
                return Some(i);
            }
            i += 1;
        }
        None
    }

    /// Where a body at `a` is put so that the order holds; among equal axes a
    /// newcomer goes last.
    pub fn position_for(&self, a: u64) -> (r: usize)
        requires
            self.wf(),
        ensures
            insertion_point(self@, a, r as int),
    {
        let mut i: usize = 0;
        while i < self.orbits.len() && self.orbits[i].a <= a
            invariant
                0 <= i <= self@.len(),
                self.wf(),
                forall|j: int| 0 <= j < i ==> (#[trigger] self@[j]).a <= a,
            decreases self@.len() - i,
        {
            i += 1;
        }
        proof {
            assert forall|j: int| i <= j < self@.len() implies (#[trigger] self@[j]).a > a by {
                assert(self@[i as int].a <= self@[j].a);
            }
        }
        i
    }

    /// Puts `o` in its place and says where that is.
    pub fn insert(&mut self, o: Orbit) -> (p: usize)
        requires
            old(self).wf(),
        ensures
            final(self).wf(),
            insertion_point(old(self)@, o.a, p as int),
            final(self)@ == old(self)@.insert(p as int, o),
    {
        let p = self.position_for(o.a);
        self.orbits.insert(p, o);
        proof {
            let s = self@;
            assert forall|i: int, j: int| 0 <= i < j < s.len() implies (#[trigger] s[i]).a <= (
            #[trigger] s[j]).a by {
                let t = old(self)@;
                if j < p {
                    assert(s[i] == t[i] && s[j] == t[j]);
                } else if j == p {
                    assert(s[i] == t[i]);
                } else if i < p {
                    assert(s[i] == t[i] && s[j] == t[j - 1]);
                } else if i == p {
                    assert(s[j] == t[j - 1]);
                } else {
                    assert(s[i] == t[i - 1] && s[j] == t[j - 1]);
                }
            }
        }
        p
    }

    /// Takes out the body at `i`.
    pub fn remove(&mut self, i: usize) -> (r: Orbit)
        requires
            old(self).wf(),
            i < old(self)@.len(),
        ensures
            final(self).wf(),
            r == old(self)@[i as int],
            final(self)@ == old(self)@.remove(i as int),
    {
        let r = self.orbits.remove(i);
        proof {
            let s = self@;
            let t = old(self)@;
            assert forall|k: int, j: int| 0 <= k < j < s.len() implies (#[trigger] s[k]).a <= (
            #[trigger] s[j]).a by {
                if j < i {
                    assert(s[k] == t[k] && s[j] == t[j]);
                } else if k < i {
                    assert(s[k] == t[k] && s[j] == t[j + 1]);
                } else {
                    assert(s[k] == t[k + 1] && s[j] == t[j + 1]);
                }
            }
        }
        r
    }

    /// Decides what becomes of `c`, changing nothing.
    pub fn resolve(&self, c: &Orbit, standalone: bool) -> (r: Resolution)
        requires
            self.wf(),
        ensures
            resolves(self@, *c, standalone, r),
    {
        match self.find_overlap(c) {
            Some(i) => {
                if c.mass < self.orbits[i].capture_limit {
                    Resolution::Capture(i)
                } else {
                    Resolution::Merge(i)
                }
            },
            None => {
                if standalone {
                    Resolution::Insert(self.position_for(c.a))
                } else {
                    Resolution::Discard
                }
            },
        }
    }

    /// Decides what becomes of `c` and, where it stands alone, puts it in
    /// place. A capture or a merge is left to the caller, who works out the
    /// new bodies.
    pub fn receive(&mut self, c: Orbit, standalone: bool) -> (r: Resolution)
        requires
            old(self).wf(),
        ensures
            final(self).wf(),
            resolves(old(self)@, c, standalone, r),
            final(self)@ == match r {
                Resolution::Insert(p) => old(self)@.insert(p as int, c),
                _ => old(self)@,
            },
            !standalone ==> bombardment_step(old(self)@, final(self)@),
            old(self).disjoint() ==> final(self).disjoint(),
    {
        let r = self.resolve(&c, standalone);
        if let Resolution::Insert(_) = r {
            let p = self.insert(c);
            proof {
                if old(self).disjoint() {
                    lemma_disjoint_insert(old(self)@, p as int, c);
                }
            }
            return Resolution::Insert(p);
        }
        r
    }

    /// Replaces the body at `i` by `merged`, the body it has coalesced into,
    /// and tests `merged` against the others. Where it runs into one, that
    /// one's position comes back and `merged` is out of the index for the
    /// caller to coalesce further; otherwise it is put in its place.
    pub fn absorb(&mut self, i: usize, merged: Orbit) -> (r: Option<usize>)
        requires
            old(self).wf(),
            i < old(self)@.len(),
        ensures
            final(self).wf(),
            match r {
                Some(j) => first_overlap(old(self)@.remove(i as int), merged, j as int)
                    && final(self)@ == old(self)@.remove(i as int),
                None => clear_before(
                    old(self)@.remove(i as int),
                    merged,
                    old(self)@.len() - 1,
                ) && exists|p: int|
                    insertion_point(old(self)@.remove(i as int), merged.a, p)
                        && final(self)@ == #[trigger] old(self)@.remove(i as int).insert(
                        p,
                        merged,
                    ),
            },
            bombardment_step(old(self)@, final(self)@),
            old(self).disjoint() ==> final(self).disjoint(),
    {
        self.remove(i);
        proof {
            if old(self).disjoint() {
                lemma_disjoint_remove(old(self)@, i as int);
            }
        }
        match self.find_overlap(&merged) {
            Some(j) => Some(j),
            None => {
                let ghost before = self@;
                let p = self.insert(merged);
                proof {
                    assert(0 <= p <= old(self)@.len() - 1);
                    if old(self).disjoint() {
                        lemma_disjoint_insert(before, p as int, merged);
                    }
                }
                None
            },
        }
    }
}

} // verus!
