//! Which rows each of the two frame buffers shown in turn lacks.
use vstd::prelude::*;

use crate::vt::Term;
use crate::vt::model::TermV;

verus! {

/// The rows each of the two buffers has not had drawn since it was last shown (or all of
/// them), the buffer drawn next, and where the cursor was in the last frame.
pub struct Damage {
    pub stale: Vec<Vec<bool>>,
    pub all: Vec<bool>,
    pub cur: usize,
    pub last: (usize, usize),
}

/// `t` with the rows marked in `s` marked too.
pub open spec fn merge_dirty(t: TermV, s: Seq<bool>) -> TermV {
    TermV { dirty: Seq::new(t.dirty.len(), |d: int| t.dirty[d] || (d < s.len() && s[d])), ..t }
}

/// `s` resized to `n` rows (new rows lacking), with the rows marked in `drawn` added.
pub open spec fn lag_after(s: Seq<bool>, drawn: Seq<bool>) -> Seq<bool> {
    Seq::new(drawn.len(), |i: int| (if i < s.len() { s[i] } else { true }) || drawn[i])
}

impl Damage {
    pub open spec fn wf(&self) -> bool {
        self.stale@.len() == 2 && self.all@.len() == 2 && self.cur < 2
    }

    /// The rows of buffer `k` not yet drawn.
    pub open spec fn lag(&self, k: int) -> Seq<bool> {
        self.stale@[k]@
    }

    /// Both buffers lacking everything, the first to be drawn next.
    pub fn new() -> (r: Damage)
        ensures
            r.wf(),
            r.lag(0) == Seq::<bool>::empty(),
            r.lag(1) == Seq::<bool>::empty(),
            r.all@ == seq![true, true],
            r.cur == 0,
            r.last == (0usize, 0usize),
    {
        let mut stale: Vec<Vec<bool>> = Vec::new();
        stale.push(Vec::new());
        stale.push(Vec::new());
        let r = Damage { stale, all: vec![true, true], cur: 0, last: (0, 0) };
        proof { assert(r.all@ =~= seq![true, true]); }
        r
    }

    /// After the grid changed size to `rows` rows: both buffers lack everything.
    pub fn reset(&mut self, rows: usize)
        requires
            old(self).wf(),
        ensures
            final(self).wf(),
            final(self).lag(0) == Seq::new(rows as nat, |i: int| false),
            final(self).lag(1) == Seq::new(rows as nat, |i: int| false),
            final(self).all@ == seq![true, true],
            final(self).cur == old(self).cur,
            final(self).last == old(self).last,
    {
        self.stale.set(0, vec![false; rows]);
        self.stale.set(1, vec![false; rows]);
        self.all.set(0, true);
        self.all.set(1, true);
        proof {
            assert(self.lag(0) =~= Seq::new(rows as nat, |i: int| false));
            assert(self.lag(1) =~= Seq::new(rows as nat, |i: int| false));
            assert(self.all@ =~= seq![true, true]);
        }
    }

    /// Before drawing into the next buffer: marks the rows the cursor left and entered,
    /// and what the buffer lacks, in `t`: everything where it lacks everything, or lacks
    /// any row while the scrollback is shown. Says whether everything is to be drawn.
    pub fn prepare(&mut self, t: &mut Term) -> (was_all: bool)
        requires
            old(self).wf(),
            old(t).wf(),
        ensures
            final(self).wf(),
            final(self).stale@ == old(self).stale@,
            final(self).all@ == old(self).all@,
            final(self).cur == old(self).cur,
            final(self).last == (old(t)@.y, old(t)@.x),
            final(t).wf(),
            ({
                let t0 = old(t)@;
                let t1 = if (t0.y, t0.x) != old(self).last { t0.mark(old(self).last.0 as int).mark(t0.y as int) } else { t0 };
                let s = old(self).lag(old(self).cur as int);
                final(t)@ == if old(self).all@[old(self).cur as int] || (t1.view != 0 && s.contains(true)) {
                    TermV { all_dirty: true, ..t1 }
                } else {
                    merge_dirty(t1, s)
                }
            }),
            was_all == final(t)@.all_dirty,
    {
        proof { t.lemma_fields(); }
        let (py, px) = (t.y, t.x);
        if py != self.last.0 || px != self.last.1 {
            let ly = self.last.0;
            t.mark(ly);
            t.mark(py);
        }
        self.last = (py, px);
        let ghost t1 = t@;
        proof { t.lemma_fields(); }
        let cs = self.cur;
        let s = &self.stale[cs];
        let mut any = false;
        let mut i: usize = 0;
        while i < s.len()
            invariant
                i <= s@.len(),
                any == exists|j: int| 0 <= j < i && s@[j],
            decreases s@.len() - i,
        {
            if s[i] {
                any = true;
            }
            i = i + 1;
        }
        proof {
            if any {
                let j = choose|j: int| 0 <= j < s@.len() && s@[j];
                assert(s@.contains(true));
            } else {
                assert(!s@.contains(true));
            }
        }
        if self.all[cs] || (t.view != 0 && any) {
            t.set_all_dirty();
        } else {
            let n = if t.rows < s.len() { t.rows } else { s.len() };
            let mut d: usize = 0;
            while d < n
                invariant
                    t.wf(),
                    d <= n,
                    n <= s@.len(),
                    n <= t1.rows,
                    t@ == (TermV { dirty: Seq::new(t1.dirty.len(), |k: int| t1.dirty[k] || (k < d && s@[k])), ..t1 }),
                decreases n - d,
            {
                if s[d] {
                    let ghost ta = t@;
                    t.mark(d);
                    proof {
                        assert(t@.dirty =~= Seq::new(t1.dirty.len(), |k: int| t1.dirty[k] || (k < d + 1 && s@[k])));
                    }
                } else {
                    proof {
                        assert(t@.dirty =~= Seq::new(t1.dirty.len(), |k: int| t1.dirty[k] || (k < d + 1 && s@[k])));
                    }
                }
                d = d + 1;
            }
            proof {
                assert(t@.dirty =~= merge_dirty(t1, s@).dirty);
                assert(t@ =~= merge_dirty(t1, s@));
            }
        }
        proof { t.lemma_fields(); }
        t.all_dirty
    }

    /// After a frame drawn into the next buffer, which is then shown: it lacks nothing; the
    /// other lacks everything too where everything was drawn, else the rows drawn as well;
    /// and the other is drawn next.
    pub fn flip(&mut self, drawn: &Vec<bool>, was_all: bool)
        requires
            old(self).wf(),
        ensures
            final(self).wf(),
            final(self).cur == 1 - old(self).cur,
            final(self).last == old(self).last,
            final(self).lag(old(self).cur as int) == Seq::new(old(self).lag(old(self).cur as int).len(), |i: int| false),
            final(self).all@[old(self).cur as int] == false,
            final(self).all@[1 - old(self).cur] == (was_all || old(self).all@[1 - old(self).cur]),
            final(self).lag(1 - old(self).cur) == (if was_all {
                old(self).lag(1 - old(self).cur)
            } else {
                lag_after(old(self).lag(1 - old(self).cur), drawn@)
            }),
    {
        let cs = self.cur;
        let o = 1 - cs;
        let n = self.stale[cs].len();
        self.stale.set(cs, vec![false; n]);
        self.all.set(cs, false);
        if was_all {
            self.all.set(o, true);
        } else {
            let old_o = &self.stale[o];
            let mut v: Vec<bool> = Vec::new();
            let mut i: usize = 0;
            while i < drawn.len()
                invariant
                    i <= drawn@.len(),
                    v@.len() == i,
                    forall|k: int| 0 <= k < i ==> #[trigger] v@[k] == ((if k < old_o@.len() { old_o@[k] } else { true }) || drawn@[k]),
                decreases drawn@.len() - i,
            {
                let prev = if i < old_o.len() { old_o[i] } else { true };
                v.push(prev || drawn[i]);
                i = i + 1;
            }
            proof { assert(v@ =~= lag_after(old_o@, drawn@)); }
            self.stale.set(o, v);
        }
        self.cur = o;
        proof {
            assert(self.lag(cs as int) =~= Seq::new(old(self).lag(cs as int).len(), |i: int| false));
        }
    }
}

} // verus!
