//! A minimal text-only clip store: a bounded deque of strings with an
//! adjacent-duplicate guard, kept for consumers that need no fingerprints,
//! images or timestamps. Persistence is the caller's concern.

use crate::text::str_eq;
use std::collections::VecDeque;
use vstd::prelude::*;

verus! {

/// Mathematical model of a clip store.
#[verifier::ext_equal]
pub ghost struct ClipStoreModel {
    pub max: u64,
    pub data: Seq<Seq<char>>,
}

/// Bounded, most-recent-first store of text clips.
pub struct ClipStore {
    pub max: usize,
    pub data: VecDeque<String>,
}

impl View for ClipStore {
    type V = ClipStoreModel;

    open spec fn view(&self) -> ClipStoreModel {
        ClipStoreModel { max: self.max as u64, data: self.data@.map_values(|s: String| s@) }
    }
}

/// `push`: no-op on an adjacent duplicate; otherwise the oldest clip makes
/// room when the store is full, and the new clip goes to the front.
pub open spec fn spec_store_push(m: ClipStoreModel, item: Seq<char>) -> ClipStoreModel {
    if m.data.len() > 0 && m.data[0] == item {
        m
    } else {
        let shrunk = if m.data.len() >= m.max && m.data.len() > 0 {
            m.data.drop_last()
        } else {
            m.data
        };
        ClipStoreModel { max: m.max, data: seq![item] + shrunk }
    }
}

impl ClipStore {
    /// An empty store that will hold at most `max` clips.
    pub fn new(max: usize) -> (s: ClipStore)
        ensures
            s@ == (ClipStoreModel { max: max as u64, data: Seq::<Seq<char>>::empty() }),
    {
        let s = ClipStore { max, data: VecDeque::new() };
        proof {
            assert(s@.data =~= Seq::<Seq<char>>::empty());
        }
        s
    }

    /// Records a clip at the front unless it equals the current front;
    /// evicts the oldest clip when the store is full.
    pub fn push(&mut self, item: String)
        ensures
            final(self)@ == spec_store_push(old(self)@, item@),
    {
        if self.data.len() > 0 && str_eq(self.data[0].as_str(), item.as_str()) {
            return;
        }
        if self.data.len() >= self.max && self.data.len() > 0 {
            self.data.pop_back();
            proof {
                assert(self@.data =~= old(self)@.data.drop_last());
            }
        }
        self.data.push_front(item);
        proof {
            assert(self@ =~= spec_store_push(old(self)@, item@));
        }
    }
}

} // verus!
