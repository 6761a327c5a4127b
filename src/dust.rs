use vstd::prelude::*;

verus! {

/// A radial interval `[inner, outer)` of the disk and what it still holds.
#[derive(Clone, Copy, Debug, PartialEq, Eq, Structural)]
pub struct DustBand {
    pub inner: u64,
    pub outer: u64,
    pub dust_present: bool,
    pub gas_present: bool,
}

impl DustBand {
    pub open spec fn covers(self, x: int) -> bool {
        self.inner <= x < self.outer
    }

    pub open spec fn flags(self) -> (bool, bool) {
        (self.dust_present, self.gas_present)
    }
}

/// Widths are strictly positive and each band starts where the one before it
/// ends.
pub open spec fn bands_wf(s: Seq<DustBand>) -> bool {
    &&& forall|i: int| 0 <= i < s.len() ==> (#[trigger] s[i]).inner < s[i].outer
    &&& forall|i: int| 0 <= i < s.len() - 1 ==> (#[trigger] s[i]).outer == s[i + 1].inner
}

/// No two neighbouring bands carry the same flags.
pub open spec fn bands_merged(s: Seq<DustBand>) -> bool {
    forall|i: int| 0 <= i < s.len() - 1 ==> (#[trigger] s[i]).flags() != s[i + 1].flags()
}

/// The flags `(dust, gas)` of the band that covers `x`, or `None` where no band
/// does.
pub open spec fn state_at(s: Seq<DustBand>, x: int) -> Option<(bool, bool)>
    decreases s.len(),
{
    if s.len() == 0 {
        None
    } else if s.last().covers(x) {
        Some(s.last().flags())
    } else {
        state_at(s.drop_last(), x)
    }
}

pub open spec fn has_dust(s: Seq<DustBand>, x: int) -> bool {
    match state_at(s, x) {
        Some(f) => f.0,
        None => false,
    }
}

pub open spec fn in_region(lo: int, hi: int, x: int) -> bool {
    lo <= x < hi
}

/// What a sweep of `[lo, hi)` leaves at a point whose state was `f`.
pub open spec fn swept(f: Option<(bool, bool)>, inside: bool, gas_remains: bool) -> Option<(
    bool,
    bool,
)> {
    match f {
        None => None,
        Some((d, g)) => if inside {
            Some((false, g && gas_remains))
        } else {
            Some((d, g))
        },
    }
}

/// A state is found at `x` only inside a band that covers `x`, and it is that
/// band's.
pub proof fn lemma_state_at_some(s: Seq<DustBand>, x: int) -> (i: int)
    requires
        state_at(s, x) is Some,
    ensures
        0 <= i < s.len(),
        s[i].covers(x),
        state_at(s, x) == Some(s[i].flags()),
    decreases s.len(),
{
    if s.last().covers(x) {
        (s.len() - 1) as int
    } else {
        let i = lemma_state_at_some(s.drop_last(), x);
        i
    }
}

/// Bands of a well-formed table lie in order: each ends no later than any
/// band after it begins, so no two of them overlap.
pub proof fn lemma_bands_sorted(s: Seq<DustBand>, i: int, j: int)
    requires
        bands_wf(s),
        0 <= i < j < s.len(),
    ensures
        s[i].outer <= s[j].inner,
        s[i].inner < s[j].inner,
    decreases j - i,
{
    if j > i + 1 {
        lemma_bands_sorted(s, i, j - 1);
    }
}

/// In a well-formed table the state at a point is that of the band covering it.
pub proof fn lemma_state_at_band(s: Seq<DustBand>, i: int, x: int)
    requires
        bands_wf(s),
        0 <= i < s.len(),
        s[i].covers(x),
    ensures
        state_at(s, x) == Some(s[i].flags()),
    decreases s.len(),
{
    if i < s.len() - 1 {
        lemma_bands_sorted(s, i, s.len() - 1);
        let t = s.drop_last();
        assert(bands_wf(t)) by {
            assert forall|k: int| 0 <= k < t.len() - 1 implies (#[trigger] t[k]).outer == t[k
                + 1].inner by {
                assert(t[k] == s[k] && t[k + 1] == s[k + 1]);
            }
        }
        lemma_state_at_band(t, i, x);
    }
}

/// The bands before the last of a valid table form a valid table.
proof fn lemma_prefix_valid(s: Seq<DustBand>)
    requires
        bands_wf(s),
        bands_merged(s),
        s.len() > 0,
    ensures
        bands_wf(s.drop_last()),
        bands_merged(s.drop_last()),
{
    let t = s.drop_last();
    assert forall|k: int| 0 <= k < t.len() - 1 implies (#[trigger] t[k]).outer == t[k + 1].inner
        && t[k].flags() != t[k + 1].flags() by {
        assert(t[k] == s[k] && t[k + 1] == s[k + 1]);
    }
    assert forall|k: int| 0 <= k < t.len() implies (#[trigger] t[k]).inner < t[k].outer by {
        assert(t[k] == s[k]);
    }
}

/// A table has no state at or beyond a point that every band ends by.
proof fn lemma_state_beyond(s: Seq<DustBand>, bound: int, x: int)
    requires
        forall|k: int| 0 <= k < s.len() ==> (#[trigger] s[k]).outer <= bound,
        bound <= x,
    ensures
        state_at(s, x) is None,
{
    if state_at(s, x) is Some {
        let k = lemma_state_at_some(s, x);
    }
}

/// Every band of a well-formed table ends by the end of its last band.
proof fn lemma_last_ends_table(s: Seq<DustBand>)
    requires
        bands_wf(s),
        s.len() > 0,
    ensures
        forall|k: int| 0 <= k < s.len() ==> (#[trigger] s[k]).outer <= s.last().outer,
        forall|k: int| 0 <= k < s.len() - 1 ==> (#[trigger] s[k]).outer <= s.last().inner,
{
    assert forall|k: int| 0 <= k < s.len() - 1 implies (#[trigger] s[k]).outer <= s.last().inner by {
        lemma_bands_sorted(s, k, s.len() - 1);
    }
}

/// Two valid tables that agree everywhere and whose last bands end together
/// with the same flags: the last band of `t` starts no later than that of `s`.
proof fn lemma_last_starts_alike(s: Seq<DustBand>, t: Seq<DustBand>)
    requires
        bands_wf(s),
        bands_merged(s),
        bands_wf(t),
        bands_merged(t),
        s.len() > 0,
        t.len() > 0,
        s.last().outer == t.last().outer,
        s.last().flags() == t.last().flags(),
        forall|x: int| #[trigger] state_at(s, x) == state_at(t, x),
    ensures
        t.last().inner <= s.last().inner,
{
    let a = s.last();
    let b = t.last();
    if a.inner < b.inner {
        let x = b.inner - 1;
        assert(a.covers(x));
        assert(state_at(s, x) == Some(a.flags()));
        assert(!b.covers(x));
        assert(state_at(t, x) == state_at(t.drop_last(), x));
        if t.len() == 1 {
            assert(t.drop_last().len() == 0);
            assert(state_at(t.drop_last(), x) is None);
        } else {
            let k = t.len() - 2;
            assert(t[k + 1] == b);
            assert(t[k].outer == t[k + 1].inner);
            assert(t[k].flags() != t[k + 1].flags());
            assert(t[k].covers(x));
            lemma_state_at_band(t, k, x);
            assert(state_at(t, x) == Some(t[k].flags()));
        }
    }
}

/// A valid table is fixed by what it holds at each point: two valid tables
/// that agree everywhere are the same table. So equal sweeps of equal tables
/// give equal tables, band for band.
pub proof fn lemma_table_determined(s: Seq<DustBand>, t: Seq<DustBand>)
    requires
        bands_wf(s),
        bands_merged(s),
        bands_wf(t),
        bands_merged(t),
        forall|x: int| #[trigger] state_at(s, x) == state_at(t, x),
    ensures
        s == t,
    decreases s.len() + t.len(),
{
    if s.len() == 0 || t.len() == 0 {
        if s.len() > 0 {
            lemma_state_at_band(s, 0, s[0].inner as int);
            assert(state_at(t, s[0].inner as int) is None);
        }
        if t.len() > 0 {
            lemma_state_at_band(t, 0, t[0].inner as int);
            assert(state_at(s, t[0].inner as int) is None);
        }
        assert(s =~= t);
    } else {
        let a = s.last();
        let b = t.last();
        lemma_last_ends_table(s);
        lemma_last_ends_table(t);
        assert(a.outer == b.outer) by {
            if a.outer < b.outer {
                lemma_state_beyond(s, a.outer as int, b.outer - 1);
                assert(state_at(t, b.outer - 1) == Some(b.flags()));
            } else if b.outer < a.outer {
                lemma_state_beyond(t, b.outer as int, a.outer - 1);
                assert(state_at(s, a.outer - 1) == Some(a.flags()));
            }
        }
        assert(state_at(s, a.outer - 1) == Some(a.flags()));
        assert(state_at(t, a.outer - 1) == Some(b.flags()));
        lemma_last_starts_alike(s, t);
        lemma_last_starts_alike(t, s);
        let s0 = s.drop_last();
        let t0 = t.drop_last();
        lemma_prefix_valid(s);
        lemma_prefix_valid(t);
        assert forall|x: int| #[trigger] state_at(s0, x) == state_at(t0, x) by {
            if x < a.inner {
                assert(state_at(s, x) == state_at(s0, x));
                assert(state_at(t, x) == state_at(t0, x));
            } else {
                assert forall|k: int| 0 <= k < s0.len() implies (#[trigger] s0[k]).outer
                    <= a.inner by {
                    assert(s0[k] == s[k]);
                }
                assert forall|k: int| 0 <= k < t0.len() implies (#[trigger] t0[k]).outer
                    <= b.inner by {
                    assert(t0[k] == t[k]);
                }
                lemma_state_beyond(s0, a.inner as int, x);
                lemma_state_beyond(t0, b.inner as int, x);
            }
        }
        lemma_table_determined(s0, t0);
        assert(s =~= s0.push(a));
        assert(t =~= t0.push(b));
    }
}

/// Appends `[inner, outer)` with the given flags; where the last band ends at
/// `inner` with the same flags it is extended instead, and an empty interval
/// adds nothing.
fn push_piece(out: &mut Vec<DustBand>, inner: u64, outer: u64, dust: bool, gas: bool)
    requires
        bands_wf(old(out)@),
        bands_merged(old(out)@),
        inner <= outer,
        old(out)@.len() > 0 ==> old(out)@.last().outer == inner,
    ensures
        bands_wf(final(out)@),
        bands_merged(final(out)@),
        final(out)@.len() > 0 ==> final(out)@.last().outer == outer,
        old(out)@.len() > 0 ==> final(out)@.len() > 0,
        forall|x: int| #[trigger]
            state_at(final(out)@, x) == if inner <= x < outer {
                Some((dust, gas))
            } else {
                state_at(old(out)@, x)
            },
{
    let ghost s0 = out@;
    if inner == outer {
        return;
    }
    let n = out.len();
    if n > 0 && out[n - 1].dust_present == dust && out[n - 1].gas_present == gas {
        let last = out[n - 1];
        out.set(n - 1, DustBand { inner: last.inner, outer, dust_present: dust, gas_present: gas });
        proof {
            assert(out@.drop_last() =~= s0.drop_last());
            assert forall|k: int| 0 <= k < out@.len() - 1 implies (#[trigger] out@[k]).outer
                == out@[k + 1].inner by {
                assert(out@[k] == s0[k]);
                assert(out@[k + 1] == s0[k + 1] || k + 1 == n - 1);
            }
            assert forall|k: int| 0 <= k < out@.len() - 1 implies (#[trigger] out@[k]).flags()
                != out@[k + 1].flags() by {
                assert(out@[k] == s0[k]);
                assert(out@[k + 1].flags() == s0[k + 1].flags());
            }
        }
    } else {
        out.push(DustBand { inner, outer, dust_present: dust, gas_present: gas });
        proof {
            assert(out@.drop_last() =~= s0);
        }
    }
}

/// The remaining material of the disk, as an ordered table of bands.
pub struct DustBandTable {
    bands: Vec<DustBand>,
}

impl View for DustBandTable {
    type V = Seq<DustBand>;

    closed spec fn view(&self) -> Seq<DustBand> {
        self.bands@
    }
}

impl DustBandTable {
    /// The table's invariant: sorted, contiguous, of positive widths, with
    /// neighbouring bands merged where their flags agree.
    pub open spec fn wf(&self) -> bool {
        bands_wf(self@) && bands_merged(self@)
    }

    /// One band over `[inner, outer)` with dust and gas, or no band at all
    /// where that interval is empty.
    pub fn new(inner: u64, outer: u64) -> (r: DustBandTable)
        ensures
            r.wf(),
            forall|x: int|
                #[trigger] state_at(r@, x) == if inner <= x < outer {
                    Some((true, true))
                } else {
                    None
                },
    {
        let mut bands: Vec<DustBand> = Vec::new();
        if inner < outer {
            bands.push(DustBand { inner, outer, dust_present: true, gas_present: true });
        }
        let r = DustBandTable { bands };
        assert forall|x: int|
            #[trigger] state_at(r@, x) == if inner <= x < outer {
                Some((true, true))
            } else {
                None
            } by {
            reveal_with_fuel(state_at, 2);
            if r@.len() > 0 {
                assert(r@.drop_last().len() == 0);
            }
        }
        r
    }

    /// Whether some point of `[lo, hi)` still has dust.
    pub fn dust_available(&self, lo: u64, hi: u64) -> (r: bool)
        requires
            self.wf(),
        ensures
            r == exists|x: int| lo <= x < hi && #[trigger] has_dust(self@, x),
    {
        let mut i: usize = 0;
        while i < self.bands.len()
            invariant
                0 <= i <= self@.len(),
                self.wf(),
                forall|j: int|
                    0 <= j < i ==> !(lo < hi && (#[trigger] self@[j]).dust_present && self@[j].inner
                        < hi && lo < self@[j].outer),
            decreases self@.len() - i,
        {
            let b = self.bands[i];
            if lo < hi && b.dust_present && b.inner < hi && lo < b.outer {
                proof {
                    let x: int = if lo <= b.inner {
                        b.inner as int
                    } else {
                        lo as int
                    };
                    lemma_state_at_band(self@, i as int, x);
                    assert(has_dust(self@, x));
                }
                return true;
            }
            i += 1;
        }
        proof {
            assert forall|x: int| lo <= x < hi implies !#[trigger] has_dust(self@, x) by {
                if state_at(self@, x) is Some {
                    let j = lemma_state_at_some(self@, x);
                    assert(!(lo < hi && self@[j].dust_present && self@[j].inner < hi && lo < self@[j].outer));
                }
            }
        }
        false
    }

    /// Clears the dust of `[lo, hi)`, and its gas too unless `gas_remains`,
    /// splitting the bands it cuts and merging neighbours whose flags then
    /// agree.
    pub fn sweep(&mut self, lo: u64, hi: u64, gas_remains: bool)
        requires
            old(self).wf(),
        ensures
            final(self).wf(),
            forall|x: int| #[trigger]
                state_at(final(self)@, x) == swept(
                    state_at(old(self)@, x),
                    in_region(lo as int, hi as int, x),
                    gas_remains,
                ),
    {
        let mut out: Vec<DustBand> = Vec::new();
        let n = self.bands.len();
        let mut i: usize = 0;
        while i < n
            invariant
                n == self@.len(),
                0 <= i <= n,
                bands_wf(self@),
                bands_wf(out@),
                bands_merged(out@),
                out@.len() > 0 ==> i > 0 && out@.last().outer == self@[i - 1].outer,
                forall|x: int| #[trigger]
                    state_at(out@, x) == swept(
                        state_at(self@.take(i as int), x),
                        in_region(lo as int, hi as int, x),
                        gas_remains,
                    ),
            decreases n - i,
        {
            let b = self.bands[i];
            let l = if lo < b.inner {
                b.inner
            } else if lo > b.outer {
                b.outer
            } else {
                lo
            };
            let h = if hi < l {
                l
            } else if hi > b.outer {
                b.outer
            } else {
                hi
            };
            proof {
                if i > 0 {
                    assert(self@[i - 1].outer == self@[i as int].inner);
                }
            }
            let ghost out0 = out@;
            push_piece(&mut out, b.inner, l, b.dust_present, b.gas_present);
            push_piece(&mut out, l, h, false, b.gas_present && gas_remains);
            push_piece(&mut out, h, b.outer, b.dust_present, b.gas_present);
            proof {
                let t = self@.take(i + 1);
                assert(t.drop_last() =~= self@.take(i as int));
                assert(t.last() == b);
                assert forall|x: int| #[trigger]
                    state_at(out@, x) == swept(
                        state_at(t, x),
                        in_region(lo as int, hi as int, x),
                        gas_remains,
                    ) by {
                    assert(state_at(out0, x) == swept(
                        state_at(self@.take(i as int), x),
                        in_region(lo as int, hi as int, x),
                        gas_remains,
                    ));
                }
            }
            i += 1;
        }
        proof {
            assert(self@.take(n as int) =~= self@);
        }
        self.bands = out;
    }

    pub fn bands(&self) -> (r: &Vec<DustBand>)
        ensures
            r@ == self@,
    {
        &self.bands
    }

    pub fn len(&self) -> (r: usize)
        ensures
            r == self@.len(),
    {
        self.bands.len()
    }
}

} // verus!
