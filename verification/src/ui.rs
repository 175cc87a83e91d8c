//! The client's terminal view, reduced to its state: the window of log
//! lines that is kept for display.
//!
//! Rendering is the surrounding program's business; what is verified here
//! is the window itself: drained log lines are appended, and only the
//! newest lines that fit the display height are retained.

use vstd::prelude::*;

verus! {

/// The views of a list of strings.
pub open spec fn str_views(v: Seq<String>) -> Seq<Seq<char>> {
    Seq::new(v.len(), |i: int| v[i]@)
}

/// The state behind the terminal view: the retained log lines, oldest
/// first.
pub struct Ui {
    logs: Vec<String>,
}

impl Ui {
    /// The retained lines, oldest first.
    pub closed spec fn view(self) -> Seq<Seq<char>> {
        str_views(self.logs@)
    }

    /// A view with no lines yet.
    pub fn new() -> (r: Ui)
        ensures
            r@ == Seq::<Seq<char>>::empty(),
    {
        let r = Ui { logs: Vec::new() };
        proof {
            assert(r@ =~= Seq::<Seq<char>>::empty());
        }
        r
    }

    /// Appends freshly drained lines and drops the oldest ones until no
    /// more than `height` lines remain: the newest lines that fit the
    /// display are the ones kept.
    pub fn append_logs(&mut self, drained: Vec<String>, height: usize)
        ensures
            final(self)@ == ({
                let all = old(self)@ + str_views(drained@);
                if all.len() <= height {
                    all
                } else {
                    all.subrange(all.len() - height, all.len() as int)
                }
            }),
    {
        let ghost all = old(self)@ + str_views(drained@);
        let n = drained.len();
        let mut i: usize = 0;
        let mut incoming = drained;
        while i < n
            invariant
                n == incoming@.len(),
                0 <= i <= n,
                str_views(incoming@) == str_views(drained@),
                self@ =~= old(self)@ + str_views(incoming@.subrange(0, i as int)),
            decreases n - i,
        {
            let ghost pre = self@;
            let line = incoming[i].clone();
            self.logs.push(line);
            proof {
                assert(self@ =~= pre.push(incoming@[i as int]@));
                assert(str_views(incoming@.subrange(0, i as int + 1)) =~= str_views(
                    incoming@.subrange(0, i as int),
                ).push(incoming@[i as int]@));
            }
            i = i + 1;
        }
        proof {
            assert(incoming@.subrange(0, n as int) =~= incoming@);
            assert(self@ =~= all);
        }
        let ghost total = all.len() as int;
        let cur = self.logs.len();
        proof {
            assert(total == cur as int);
        }
        let mut dropped: usize = 0;
        while self.logs.len() > height
            invariant
                dropped == all.len() - self.logs@.len(),
                0 <= dropped,
                total <= usize::MAX,
                dropped > 0 ==> self.logs@.len() >= height,
                self@ =~= all.subrange(dropped as int, total),
                total == all.len(),
            decreases self.logs@.len(),
        {
            let ghost pre = self@;
            let _ = self.logs.remove(0);
            proof {
                assert(self@ =~= pre.subrange(1, pre.len() as int));
                assert(self@ =~= all.subrange(dropped as int + 1, total));
            }
            dropped = dropped + 1;
        }
        proof {
            if all.len() <= height {
                assert(dropped == 0);
                assert(self@ =~= all);
            } else {
                assert(self.logs@.len() == height);
                assert(self@ =~= all.subrange(all.len() - height, all.len() as int));
            }
        }
    }

    /// The retained lines, for rendering.
    pub fn lines(&self) -> (r: &Vec<String>)
        ensures
            str_views(r@) == self@,
    {
        &self.logs
    }
}

} // verus!
