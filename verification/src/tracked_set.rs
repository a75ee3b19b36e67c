//! The per-stage subscription index: the set of body handles a stage has
//! been told about through the added and activated signals. Insertion order
//! is kept, every handle appears once, so iterating the set is
//! deterministic.

use vstd::prelude::*;

verus! {


/// The handles that survive when `id` is dropped, in their old order.
pub open spec fn ids_without(s: Seq<usize>, id: usize) -> Seq<usize>
    decreases s.len(),
{
    if s.len() == 0 {
        Seq::empty()
    } else {
        let pre = ids_without(s.drop_last(), id);
        if s.last() == id {
            pre
        } else {
            pre.push(s.last())
        }
    }
}

/// What survives a drop: exactly the old handles other than `id`, in their
/// old order, still distinct.
pub proof fn lemma_ids_without_ok(s: Seq<usize>, id: usize)
    requires
        forall|i: int, j: int| 0 <= i < j < s.len() ==> s[i] != s[j],
    ensures
        forall|k: int|
            0 <= k < ids_without(s, id).len() ==> s.contains(#[trigger] ids_without(s, id)[k])
                && ids_without(s, id)[k] != id,
        forall|k: int| 0 <= k < s.len() && s[k] != id ==> ids_without(s, id).contains(#[trigger] s[k]),
        forall|i: int, j: int|
            0 <= i < j < ids_without(s, id).len() ==> ids_without(s, id)[i] != ids_without(s, id)[j],
    decreases s.len(),
{
    if s.len() > 0 {
        lemma_ids_without_ok(s.drop_last(), id);
        let pre = ids_without(s.drop_last(), id);
        let res = ids_without(s, id);
        assert forall|k: int|
            0 <= k < res.len() implies s.contains(#[trigger] res[k]) && res[k] != id by {
            if k < pre.len() {
                assert(res[k] == pre[k]);
                assert(s.drop_last().contains(pre[k]));
                let w = choose|w: int| 0 <= w < s.drop_last().len() && s.drop_last()[w] == pre[k];
                assert(s[w] == pre[k]);
            } else {
                assert(res[k] == s.last());
                assert(s[s.len() - 1] == s.last());
            }
        }
        assert forall|k: int|
            0 <= k < s.len() && s[k] != id implies res.contains(#[trigger] s[k]) by {
            if k < s.len() - 1 {
                assert(s.drop_last()[k] == s[k]);
                assert(pre.contains(s[k]));
                let w = choose|w: int| 0 <= w < pre.len() && pre[w] == s[k];
                assert(res[w] == s[k]);
            } else {
                assert(res[res.len() - 1] == s.last());
            }
        }
        if !(s.last() == id) {
            assert forall|i: int, j: int|
                0 <= i < j < res.len() implies res[i] != res[j] by {
                if j < pre.len() {
                    assert(res[i] == pre[i] && res[j] == pre[j]);
                } else {
                    assert(res[j] == s.last());
                    assert(res[i] == pre[i]);
                    assert(s.drop_last().contains(pre[i]));
                    let w = choose|w: int|
                        0 <= w < s.drop_last().len() && s.drop_last()[w] == pre[i];
                    assert(s[w] == pre[i]);
                    assert(s[w] != s[s.len() - 1]);
                }
            }
        }
    }
}

/// One more tracked handle: the prefix grows by exactly the handle at `k`,
/// and membership of every other handle is unchanged.
pub proof fn lemma_take_push(ids: Seq<usize>, k: int)
    requires
        0 <= k < ids.len(),
    ensures
        ids.take(k + 1) =~= ids.take(k).push(ids[k]),
        ids.take(k + 1).contains(ids[k]),
        forall|x: usize|
            x != ids[k] ==> ids.take(k + 1).contains(x) == ids.take(k).contains(x),
{
    let tk = ids.take(k);
    let tk1 = ids.take(k + 1);
    assert(tk1 =~= tk.push(ids[k]));
    assert(tk1[k] == ids[k]);
    assert forall|x: usize| x != ids[k] implies tk1.contains(x) == tk.contains(x) by {
        if tk1.contains(x) {
            let w = choose|w: int| 0 <= w < tk1.len() && tk1[w] == x;
            assert(w < tk.len());
            assert(tk[w] == x);
        }
        if tk.contains(x) {
            let w = choose|w: int| 0 <= w < tk.len() && tk[w] == x;
            assert(tk1[w] == x);
        }
    }
}

pub struct TrackedSet {
    pub ids: Vec<usize>,
}

impl TrackedSet {
    /// No handle is tracked twice.
    pub open spec fn wf(self) -> bool {
        forall|i: int, j: int| 0 <= i < j < self.ids@.len() ==> self.ids@[i] != self.ids@[j]
    }

    pub open spec fn tracks(self, id: usize) -> bool {
        self.ids@.contains(id)
    }

    pub fn new() -> (r: TrackedSet)
        ensures
            r.ids@ =~= Seq::<usize>::empty(),
            r.wf(),
    {
        TrackedSet { ids: Vec::new() }
    }

    pub fn contains(&self, id: usize) -> (r: bool)
        ensures
            r == self.tracks(id),
    {
        let mut i: usize = 0;
        while i < self.ids.len()
            invariant
                0 <= i <= self.ids@.len(),
                forall|j: int| 0 <= j < i ==> self.ids@[j] != id,
            decreases self.ids@.len() - i,
        {
            if self.ids[i] == id {
                return true;
            }
            i += 1;
        }
        false
    }

    /// Starts tracking a handle; tracking it twice is a no-op.
    pub fn insert(&mut self, id: usize)
        requires
            old(self).wf(),
        ensures
            final(self).wf(),
            final(self).ids@ == if old(self).tracks(id) {
                old(self).ids@
            } else {
                old(self).ids@.push(id)
            },
            final(self).tracks(id),
            forall|k: usize| k != id ==> final(self).tracks(k) == old(self).tracks(k),
    {
        if !self.contains(id) {
            self.ids.push(id);
            proof {
                let pre = old(self).ids@;
                let post = self.ids@;
                assert forall|i: int, j: int| 0 <= i < j < post.len() implies post[i] != post[j] by {
                    if j == post.len() - 1 {
                        if post[i] == id {
                            assert(pre[i] == id);
                            assert(pre.contains(id));
                        }
                    }
                }
                assert(post.last() == id);
                assert forall|k: usize| k != id && pre.contains(k) implies post.contains(k) by {
                    let w = choose|w: int| 0 <= w < pre.len() && pre[w] == k;
                    assert(post[w] == k);
                }
                assert forall|k: usize| k != id && post.contains(k) implies pre.contains(k) by {
                    let w = choose|w: int| 0 <= w < post.len() && post[w] == k;
                    assert(pre[w] == k);
                }
            }
        }
    }

    /// Stops tracking a handle; an untracked handle is a no-op.
    pub fn remove(&mut self, id: usize)
        requires
            old(self).wf(),
        ensures
            final(self).wf(),
            final(self).ids@ == ids_without(old(self).ids@, id),
            !final(self).tracks(id),
            forall|k: usize| k != id ==> final(self).tracks(k) == old(self).tracks(k),
    {
        let ghost pre = old(self).ids@;
        let mut kept: Vec<usize> = Vec::new();
        let mut i: usize = 0;
        while i < self.ids.len()
            invariant
                0 <= i <= pre.len(),
                pre == old(self).ids@,
                self.ids@ == pre,
                kept@ == ids_without(pre.subrange(0, i as int), id),
            decreases pre.len() - i,
        {
            let h = self.ids[i];
            proof {
                assert(pre.subrange(0, i + 1).drop_last() =~= pre.subrange(0, i as int));
                assert(pre.subrange(0, i + 1).last() == pre[i as int]);
            }
            if h != id {
                kept.push(h);
            }
            i += 1;
        }
        proof {
            assert(pre.subrange(0, pre.len() as int) =~= pre);
        }
        self.ids = kept;
        proof {
            lemma_ids_without_ok(pre, id);
            let post = self.ids@;
            assert(!post.contains(id)) by {
                if post.contains(id) {
                    let w = choose|w: int| 0 <= w < post.len() && post[w] == id;
                }
            }
            assert forall|k: usize| k != id && pre.contains(k) implies post.contains(k) by {
                let w = choose|w: int| 0 <= w < pre.len() && pre[w] == k;
            }
            assert forall|k: usize| k != id && post.contains(k) implies pre.contains(k) by {
                let w = choose|w: int| 0 <= w < post.len() && post[w] == k;
            }
        }
    }
}

} // verus!
