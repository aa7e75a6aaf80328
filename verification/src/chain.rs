//! The order of use, kept as a chain through a slab of entries.
//!
//! Each entry names the slots of its older and its newer neighbour. The three
//! lemmas say what the three changes that a cache makes to such a chain do to
//! the order: taking an entry off, putting one at the newest end, and moving
//! the entry of the last slot into a free one.

use vstd::prelude::*;

verus! {

/// The slot number that stands for "no entry".
pub const NONE: usize = usize::MAX;

/// One stored pair, with its neighbours in the order of use.
pub struct CacheEntry {
    pub key: String,
    pub value: String,
    pub older: usize,
    pub newer: usize,
}

impl View for CacheEntry {
    type V = (Seq<char>, Seq<char>);

    open spec fn view(&self) -> (Seq<char>, Seq<char>) {
        (self.key@, self.value@)
    }
}

/// Whether the entries of `slab` named by `order` are chained in that order:
/// `order` lists distinct slots, each entry on it points to its neighbours,
/// and `oldest` and `newest` are its two ends.
pub open spec fn chain(slab: Seq<CacheEntry>, order: Seq<int>, oldest: usize, newest: usize) -> bool {
    let n = order.len() as int;
    &&& forall|i: int| 0 <= i < n ==> 0 <= #[trigger] order[i] < slab.len()
    &&& forall|i: int, j: int| 0 <= i < j < n ==> #[trigger] order[i] != #[trigger] order[j]
    &&& forall|i: int|
        0 <= i < n ==> (#[trigger] slab[order[i]]).older == (if i == 0 {
            NONE as int
        } else {
            order[i - 1]
        })
    &&& forall|i: int|
        0 <= i < n ==> (#[trigger] slab[order[i]]).newer == (if i == n - 1 {
            NONE as int
        } else {
            order[i + 1]
        })
    &&& oldest == (if n == 0 {
        NONE as int
    } else {
        order[0]
    })
    &&& newest == (if n == 0 {
        NONE as int
    } else {
        order[n - 1]
    })
}

/// Taking an entry off the chain: when its two neighbours are pointed at
/// each other, the rest is chained in the old order.
pub proof fn lemma_unlink(
    before: Seq<CacheEntry>,
    after: Seq<CacheEntry>,
    order: Seq<int>,
    place: int,
    ends: (usize, usize),
    new_ends: (usize, usize),
)
    requires
        chain(before, order, ends.0, ends.1),
        0 <= place < order.len(),
        before.len() <= usize::MAX,
        after.len() == before.len(),
        forall|t: int|
            0 <= t < before.len() ==> (#[trigger] after[t]).older == (if t
                == before[order[place]].newer {
                before[order[place]].older
            } else {
                before[t].older
            }),
        forall|t: int|
            0 <= t < before.len() ==> (#[trigger] after[t]).newer == (if t
                == before[order[place]].older {
                before[order[place]].newer
            } else {
                before[t].newer
            }),
        new_ends.0 == (if before[order[place]].older == NONE {
            before[order[place]].newer
        } else {
            ends.0
        }),
        new_ends.1 == (if before[order[place]].newer == NONE {
            before[order[place]].older
        } else {
            ends.1
        }),
    ensures
        chain(after, order.remove(place), new_ends.0, new_ends.1),
{
    let n = order.len() as int;
    let slot = order[place];
    let older = before[slot].older;
    let newer = before[slot].newer;
    let rest = order.remove(place);
    assert(0 <= slot < before.len());
    if place > 0 {
        assert(0 <= order[place - 1] < before.len());
    }
    if place < n - 1 {
        assert(0 <= order[place + 1] < before.len());
    }
    assert forall|i: int| 0 <= i < n - 1 implies #[trigger] rest[i] == order[if i < place {
        i
    } else {
        i + 1
    }] by {}
    assert forall|i: int| 0 <= i < n - 1 implies 0 <= #[trigger] rest[i] < after.len() by {
        let ii = if i < place { i } else { i + 1 };
        assert(0 <= order[ii] < before.len());
    }
    assert forall|i: int, j: int| 0 <= i < j < n - 1 implies #[trigger] rest[i] != #[trigger] rest[j] by {
        let ii = if i < place { i } else { i + 1 };
        let jj = if j < place { j } else { j + 1 };
        assert(order[ii] != order[jj]);
    }
    assert forall|i: int| 0 <= i < n - 1 implies (#[trigger] after[rest[i]]).older == (if i == 0 {
        NONE as int
    } else {
        rest[i - 1]
    }) by {
        let ii = if i < place { i } else { i + 1 };
        let t = order[ii];
        assert(rest[i] == t);
        assert(0 <= t < before.len());
        if ii == place + 1 {
            if i > 0 {
                assert(rest[i - 1] == order[place - 1]);
            }
        } else {
            if place < n - 1 {
                assert(order[ii] != order[place + 1]);
            }
            if ii > 0 {
                assert(0 <= order[ii - 1] < before.len());
                assert(rest[i - 1] == order[ii - 1]);
            }
        }
    }
    assert forall|i: int| 0 <= i < n - 1 implies (#[trigger] after[rest[i]]).newer == (if i == n - 2 {
        NONE as int
    } else {
        rest[i + 1]
    }) by {
        let ii = if i < place { i } else { i + 1 };
        let t = order[ii];
        assert(rest[i] == t);
        assert(0 <= t < before.len());
        if ii == place - 1 {
            if i < n - 2 {
                assert(rest[i + 1] == order[place + 1]);
            }
        } else {
            if place > 0 {
                assert(order[ii] != order[place - 1]);
            }
            if ii < n - 1 {
                assert(0 <= order[ii + 1] < before.len());
                assert(rest[i + 1] == order[ii + 1]);
            }
        }
    }
    if n - 1 > 0 {
        assert(rest[0] == order[if place == 0 { 1int } else { 0int }]);
        assert(rest[n - 2] == order[if place == n - 1 { n - 2 } else { n - 1 }]);
    }
}

/// Putting an entry that is off the chain at its newest end.
pub proof fn lemma_link(
    before: Seq<CacheEntry>,
    after: Seq<CacheEntry>,
    order: Seq<int>,
    slot: int,
    ends: (usize, usize),
    new_ends: (usize, usize),
)
    requires
        chain(before, order, ends.0, ends.1),
        0 <= slot < before.len(),
        before.len() <= usize::MAX,
        forall|i: int| 0 <= i < order.len() ==> #[trigger] order[i] != slot,
        after.len() == before.len(),
        forall|t: int|
            0 <= t < before.len() ==> (#[trigger] after[t]).older == (if t == slot {
                ends.1
            } else {
                before[t].older
            }),
        forall|t: int|
            0 <= t < before.len() ==> (#[trigger] after[t]).newer == (if t == slot {
                NONE
            } else if t == ends.1 {
                slot as usize
            } else {
                before[t].newer
            }),
        new_ends.0 == (if ends.1 == NONE {
            slot as usize
        } else {
            ends.0
        }),
        new_ends.1 == slot,
    ensures
        chain(after, order.push(slot), new_ends.0, new_ends.1),
{
    let n = order.len() as int;
    let more = order.push(slot);
    if n > 0 {
        assert(0 <= order[n - 1] < before.len());
    }
    assert forall|i: int| 0 <= i < n implies #[trigger] more[i] == order[i] by {}
    assert(more[n] == slot);
    assert forall|i: int| 0 <= i < n + 1 implies 0 <= #[trigger] more[i] < after.len() by {
        if i < n {
            assert(0 <= order[i] < before.len());
        }
    }
    assert forall|i: int, j: int| 0 <= i < j < n + 1 implies #[trigger] more[i] != #[trigger] more[j] by {
        if j < n {
            assert(order[i] != order[j]);
        } else {
            assert(order[i] != slot);
        }
    }
    assert forall|i: int| 0 <= i < n + 1 implies (#[trigger] after[more[i]]).older == (if i == 0 {
        NONE as int
    } else {
        more[i - 1]
    }) by {
        if i < n {
            assert(order[i] != slot);
            assert(0 <= order[i] < before.len());
            if i > 0 {
                assert(more[i - 1] == order[i - 1]);
            }
        } else if n > 0 {
            assert(more[n - 1] == order[n - 1]);
        }
    }
    assert forall|i: int| 0 <= i < n + 1 implies (#[trigger] after[more[i]]).newer == (if i == n {
        NONE as int
    } else {
        more[i + 1]
    }) by {
        if i < n {
            assert(order[i] != slot);
            assert(0 <= order[i] < before.len());
            if i < n - 1 {
                assert(order[i] != order[n - 1]);
                assert(more[i + 1] == order[i + 1]);
            }
        }
    }
    if n > 0 {
        assert(more[0] == order[0]);
    }
}

/// Moving the entry in the last slot into the free slot `slot`: when the
/// entry's neighbours are pointed at its new slot, the chain is the old
/// one with the last slot's number replaced by `slot`.
pub proof fn lemma_move(
    before: Seq<CacheEntry>,
    after: Seq<CacheEntry>,
    order: Seq<int>,
    slot: int,
    from: int,
    ends: (usize, usize),
    new_ends: (usize, usize),
)
    requires
        chain(before, order, ends.0, ends.1),
        before.len() <= usize::MAX,
        0 <= slot < before.len() - 1,
        forall|i: int| 0 <= i < order.len() ==> #[trigger] order[i] != slot,
        0 <= from < order.len(),
        order[from] == before.len() - 1,
        after.len() == before.len() - 1,
        forall|t: int|
            0 <= t < after.len() ==> (#[trigger] after[t]).older == (if t == before.last().newer {
                slot as usize
            } else if t == slot {
                before.last().older
            } else {
                before[t].older
            }),
        forall|t: int|
            0 <= t < after.len() ==> (#[trigger] after[t]).newer == (if t == before.last().older {
                slot as usize
            } else if t == slot {
                before.last().newer
            } else {
                before[t].newer
            }),
        new_ends.0 == (if before.last().older == NONE {
            slot as usize
        } else {
            ends.0
        }),
        new_ends.1 == (if before.last().newer == NONE {
            slot as usize
        } else {
            ends.1
        }),
    ensures
        chain(after, order.update(from, slot), new_ends.0, new_ends.1),
{
    let n = order.len() as int;
    let last = before.len() - 1;
    let moved = order.update(from, slot);
    if from > 0 {
        assert(0 <= order[from - 1] < before.len());
        assert(order[from - 1] != order[from]);
    }
    if from < n - 1 {
        assert(0 <= order[from + 1] < before.len());
        assert(order[from + 1] != order[from]);
    }
    assert forall|i: int| 0 <= i < n implies #[trigger] moved[i] == (if i == from {
        slot
    } else {
        order[i]
    }) by {}
    assert forall|i: int| 0 <= i < n implies 0 <= #[trigger] moved[i] < after.len() by {
        if i != from {
            assert(0 <= order[i] < before.len());
            assert(order[i] != order[from]);
        }
    }
    assert forall|i: int, j: int| 0 <= i < j < n implies #[trigger] moved[i] != #[trigger] moved[j] by {
        assert(order[i] != order[j]);
        assert(order[i] != slot);
        assert(order[j] != slot);
    }
    assert forall|i: int| 0 <= i < n implies (#[trigger] after[moved[i]]).older == (if i == 0 {
        NONE as int
    } else {
        moved[i - 1]
    }) by {
        assert(0 <= order[i] < before.len());
        if i != from {
            assert(order[i] != order[from]);
            assert(order[i] != slot);
            if from < n - 1 {
                assert(i == from + 1 || order[i] != order[from + 1]);
            }
            if i > 0 {
                assert(0 <= order[i - 1] < before.len());
                assert(moved[i - 1] == if i - 1 == from { slot } else { order[i - 1] });
            }
        } else {
            if i > 0 {
                assert(moved[i - 1] == order[i - 1]);
            }
        }
    }
    assert forall|i: int| 0 <= i < n implies (#[trigger] after[moved[i]]).newer == (if i == n - 1 {
        NONE as int
    } else {
        moved[i + 1]
    }) by {
        assert(0 <= order[i] < before.len());
        if i != from {
            assert(order[i] != order[from]);
            assert(order[i] != slot);
            if from > 0 {
                assert(i == from - 1 || order[i] != order[from - 1]);
            }
            if i < n - 1 {
                assert(0 <= order[i + 1] < before.len());
                assert(moved[i + 1] == if i + 1 == from { slot } else { order[i + 1] });
            }
        } else {
            if i < n - 1 {
                assert(moved[i + 1] == order[i + 1]);
            }
        }
    }
    assert(moved[0] == if from == 0 { slot } else { order[0] });
    assert(moved[n - 1] == if from == n - 1 { slot } else { order[n - 1] });
}

} // verus!
