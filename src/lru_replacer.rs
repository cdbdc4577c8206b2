use vstd::prelude::*;
use crate::common::FrameId;
use crate::replacer::Replacer;

verus! {

/// Least-recently-used replacement: the frame unpinned longest ago is evicted first.
pub struct LRUReplacer {
    /// Evictable frames, least recently unpinned first.
    frames: Vec<FrameId>,
}

impl View for LRUReplacer {
    type V = Seq<FrameId>;

    /// The evictable frames in eviction order: the first is the next victim.
    closed spec fn view(&self) -> Seq<FrameId> {
        self.frames@
    }
}

/// `s` with every occurrence of `f` taken out.
pub open spec fn without(s: Seq<FrameId>, f: FrameId) -> Seq<FrameId> {
    s.filter(|x: FrameId| x != f)
}

impl LRUReplacer {
    pub fn new() -> (r: LRUReplacer)
        ensures
            r@ == Seq::<FrameId>::empty(),
            r.inv(),
    {
        LRUReplacer { frames: Vec::new() }
    }

    /// Position of `frame_id` in the eviction order, if tracked.
    fn position(&self, frame_id: FrameId) -> (r: Option<usize>)
        ensures
            r is None ==> !self@.contains(frame_id),
            r matches Some(i) ==> i < self@.len() && self@[i as int] == frame_id,
    {
        let mut i: usize = 0;
        while i < self.frames.len()
            invariant
                i <= self.frames@.len(),
                forall|j: int| 0 <= j < i ==> self.frames@[j] != frame_id,
            decreases self.frames@.len() - i,
        {
            if self.frames[i] == frame_id {
                return Some(i);
            }
            i = i + 1;
        }
        None
    }
}

proof fn lemma_without_absent(s: Seq<FrameId>, f: FrameId)
    requires
        !s.contains(f),
    ensures
        without(s, f) == s,
    decreases s.len(),
{
    reveal_with_fuel(Seq::filter, 1);
    if s.len() > 0 {
        lemma_without_absent(s.drop_last(), f);
        assert(s.drop_last().push(s.last()) =~= s);
    }
}

proof fn lemma_without_at(s: Seq<FrameId>, i: int)
    requires
        s.no_duplicates(),
        0 <= i < s.len(),
    ensures
        without(s, s[i]) == s.remove(i),
    decreases s.len(),
{
    reveal_with_fuel(Seq::filter, 1);
    let f = s[i];
    if i == s.len() - 1 {
        assert(!s.drop_last().contains(f)) by {
            if s.drop_last().contains(f) {
                let k = choose|k: int| 0 <= k < s.drop_last().len() && s.drop_last()[k] == f;
                assert(s[k] == s[i]);
            }
        }
        lemma_without_absent(s.drop_last(), f);
        assert(s.remove(i) =~= s.drop_last());
    } else {
        lemma_without_at(s.drop_last(), i);
        assert(s.drop_last().remove(i).push(s.last()) =~= s.remove(i));
    }
}

impl Replacer for LRUReplacer {
    open spec fn evictable(&self) -> Set<FrameId> {
        self@.to_set()
    }

    open spec fn inv(&self) -> bool {
        self@.no_duplicates()
    }

    fn victim(&mut self) -> (r: Option<FrameId>)
        ensures
            old(self)@.len() == 0 ==> r is None && final(self)@ == old(self)@,
            old(self)@.len() > 0 ==> r == Some(old(self)@[0]) && final(self)@
                == old(self)@.drop_first(),
    {
        if self.frames.len() == 0 {
            proof {
                assert(old(self)@.to_set().is_empty()) by {
                    assert(old(self)@.to_set() =~= Set::<FrameId>::empty());
                }
            }
            None
        } else {
            let f = self.frames.remove(0);
            proof {
                let s = old(self)@;
                assert(s.to_set().contains(f)) by {
                    assert(s[0] == f);
                }
                assert(self@ =~= s.drop_first());
                assert(self@.to_set() =~= s.to_set().remove(f)) by {
                    assert forall|x: FrameId| self@.to_set().contains(x) <==> s.to_set().remove(
                        f,
                    ).contains(x) by {
                        if self@.contains(x) {
                            let k = choose|k: int| 0 <= k < self@.len() && self@[k] == x;
                            assert(s[k + 1] == x);
                        }
                        if x != f && s.contains(x) {
                            let k = choose|k: int| 0 <= k < s.len() && s[k] == x;
                            assert(k != 0);
                            assert(self@[k - 1] == x);
                        }
                    }
                }
            }
            Some(f)
        }
    }

    fn pin(&mut self, frame_id: FrameId)
        ensures
            final(self)@ == without(old(self)@, frame_id),
    {
        match self.position(frame_id) {
            None => {
                proof {
                    lemma_without_absent(self@, frame_id);
                    assert(self@.to_set().remove(frame_id) =~= self@.to_set());
                }
            },
            Some(i) => {
                self.frames.remove(i);
                proof {
                    let s = old(self)@;
                    lemma_without_at(s, i as int);
                    assert(self@ =~= s.remove(i as int));
                    assert forall|x: FrameId| self@.to_set().contains(x) <==> s.to_set().remove(
                        frame_id,
                    ).contains(x) by {
                        if self@.contains(x) {
                            let k = choose|k: int| 0 <= k < self@.len() && self@[k] == x;
                            if k < i {
                                assert(s[k] == x);
                            } else {
                                assert(s[k + 1] == x);
                            }
                        }
                        if x != frame_id && s.contains(x) {
                            let k = choose|k: int| 0 <= k < s.len() && s[k] == x;
                            if k < i {
                                assert(self@[k] == x);
                            } else {
                                assert(self@[k - 1] == x);
                            }
                        }
                    }
                    assert(self@.to_set() =~= s.to_set().remove(frame_id));
                }
            },
        }
    }

    fn unpin(&mut self, frame_id: FrameId)
        ensures
            old(self)@.contains(frame_id) ==> final(self)@ == old(self)@,
            !old(self)@.contains(frame_id) ==> final(self)@ == old(self)@.push(frame_id),
    {
        match self.position(frame_id) {
            Some(_) => {
                proof {
                    assert(self@.to_set().insert(frame_id) =~= self@.to_set());
                }
            },
            None => {
                self.frames.push(frame_id);
                proof {
                    let s = old(self)@;
                    assert(self@.to_set() =~= s.to_set().insert(frame_id)) by {
                        assert forall|x: FrameId| self@.to_set().contains(x) <==> s.to_set().insert(
                            frame_id,
                        ).contains(x) by {
                            if self@.contains(x) && x != frame_id {
                                let k = choose|k: int| 0 <= k < self@.len() && self@[k] == x;
                                assert(s[k] == x);
                            }
                            if s.contains(x) {
                                let k = choose|k: int| 0 <= k < s.len() && s[k] == x;
                                assert(self@[k] == x);
                            }
                            if x == frame_id {
                                assert(self@[s.len() as int] == x);
                            }
                        }
                    }
                }
            },
        }
    }

    fn size(&self) -> (r: usize)
        ensures
            r == self@.len(),
    {
        proof {
            self@.unique_seq_to_set();
        }
        self.frames.len()
    }
}

} // verus!
