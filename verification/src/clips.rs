//! A small in-memory ring of recently-published clips: the host stores each
//! clip a client posts and a newly-connected device can backfill the recent
//! history.
use vstd::prelude::*;
use std::collections::VecDeque;

verus! {

/// How many recent clips the host retains for backfill.
pub const MAX_CLIPS: usize = 50;

/// One published clip: a monotonically-increasing id and its text payload.
#[derive(Clone, Debug)]
pub struct Clip {
    pub id: u64,
    pub text: String,
}

impl View for Clip {
    type V = (u64, Seq<char>);

    open spec fn view(&self) -> (u64, Seq<char>) {
        (self.id, self.text@)
    }
}

/// A capped ring of the most recent clips, oldest first.
pub struct ClipStore {
    next_id: u64,
    items: VecDeque<Clip>,
}

/// What a [`ClipStore`] holds: the id the next clip gets, and the retained
/// clips, oldest first.
pub struct ClipStoreView {
    pub next_id: u64,
    pub items: Seq<(u64, Seq<char>)>,
}

impl View for ClipStore {
    type V = ClipStoreView;

    closed spec fn view(&self) -> ClipStoreView {
        ClipStoreView {
            next_id: self.next_id,
            items: Seq::new(self.items@.len(), |i: int| self.items@[i]@),
        }
    }
}

/// The id after `id`, wrapping around as an atomic counter does.
pub open spec fn next_clip_id(id: u64) -> u64 {
    if id == u64::MAX {
        0
    } else {
        (id + 1) as u64
    }
}

/// The last `MAX_CLIPS` items of `items` (all of them when there are fewer).
pub open spec fn newest(items: Seq<(u64, Seq<char>)>) -> Seq<(u64, Seq<char>)> {
    if items.len() > MAX_CLIPS {
        items.skip(items.len() - MAX_CLIPS)
    } else {
        items
    }
}

/// The store after `text` is pushed: the clip gets the next id and the
/// oldest clips beyond the cap are dropped.
pub open spec fn spec_push(s: ClipStoreView, text: Seq<char>) -> ClipStoreView {
    ClipStoreView {
        next_id: next_clip_id(s.next_id),
        items: newest(s.items.push((s.next_id, text))),
    }
}

fn copy_clip(c: &Clip) -> (r: Clip)
    ensures
        r@ == c@,
{
    Clip { id: c.id, text: c.text.clone() }
}

impl ClipStore {
    #[verifier::type_invariant]
    closed spec fn capped(self) -> bool {
        self.items@.len() <= MAX_CLIPS
    }

    /// An empty store.
    pub fn new() -> (r: ClipStore)
        ensures
            r@.next_id == 0,
            r@.items.len() == 0,
    {
        ClipStore { next_id: 0, items: VecDeque::new() }
    }

    /// Stores `text` as the newest clip, evicting the oldest past [`MAX_CLIPS`],
    /// and returns the stored clip (with its freshly-assigned id).
    pub fn push(&mut self, text: String) -> (r: Clip)
        ensures
            r@ == (old(self)@.next_id, text@),
            final(self)@ == spec_push(old(self)@, text@),
    {
        proof {
            use_type_invariant(&*self);
        }
        let ghost before = self@.items;
        let id = self.next_id;
        self.next_id = id.wrapping_add(1);
        let clip = Clip { id, text };
        let mut q: VecDeque<Clip> = VecDeque::new();
        std::mem::swap(&mut q, &mut self.items);
        if q.len() >= MAX_CLIPS {
            q.pop_front();
        }
        q.push_back(copy_clip(&clip));
        std::mem::swap(&mut q, &mut self.items);
        proof {
            let all = before.push((id, clip.text@));
            assert(self@.items =~= newest(all));
        }
        clip
    }

    /// The retained clips, oldest first (in the order they arrived).
    pub fn recent(&self) -> (r: Vec<Clip>)
        ensures
            Seq::new(r@.len(), |i: int| r@[i]@) == self@.items,
    {
        let mut v: Vec<Clip> = Vec::new();
        let n = self.items.len();
        let mut i: usize = 0;
        while i < n
            invariant
                n == self.items@.len(),
                i <= n,
                v@.len() == i,
                forall|j: int| 0 <= j < i ==> #[trigger] v@[j]@ == self.items@[j]@,
            decreases n - i,
        {
            v.push(copy_clip(&self.items[i]));
            i = i + 1;
        }
        assert(Seq::new(v@.len(), |i: int| v@[i]@) =~= self@.items);
        v
    }
}

// ---------------------------------------------------------------------------
// Laws
// ---------------------------------------------------------------------------

/// The store after pushing each of `texts` in turn onto `s`.
pub open spec fn push_all(s: ClipStoreView, texts: Seq<Seq<char>>) -> ClipStoreView
    decreases texts.len(),
{
    if texts.len() == 0 {
        s
    } else {
        spec_push(push_all(s, texts.drop_last()), texts.last())
    }
}

/// The id that the clip pushed `k`-th onto a new store gets: `k`, wrapping
/// around to 0 after `u64::MAX` as the counter does.
pub open spec fn clip_id(k: nat) -> u64 {
    (k % 0x1_0000_0000_0000_0000) as u64
}

/// The clips numbered from 0 for `texts`, in order.
pub open spec fn numbered(texts: Seq<Seq<char>>) -> Seq<(u64, Seq<char>)> {
    Seq::new(texts.len(), |k: int| (clip_id(k as nat), texts[k]))
}

proof fn lemma_next_clip_id(n: nat)
    ensures
        next_clip_id(clip_id(n)) == clip_id(n + 1),
{
    let m: int = 0x1_0000_0000_0000_0000;
    let k: int = n as int;
    let q: int = k / m;
    let r: int = k % m;
    vstd::arithmetic::div_mod::lemma_fundamental_div_mod(k, m);
    if r == m - 1 {
        vstd::arithmetic::div_mod::lemma_fundamental_div_mod_converse(k + 1, m, q + 1, 0);
    } else {
        vstd::arithmetic::div_mod::lemma_fundamental_div_mod_converse(k + 1, m, q, r + 1);
    }
}

proof fn lemma_newest_push(a: Seq<(u64, Seq<char>)>, x: (u64, Seq<char>))
    ensures
        newest(newest(a).push(x)) == newest(a.push(x)),
{
    if a.len() > MAX_CLIPS {
        assert(newest(a).push(x).skip(1) =~= a.push(x).skip(a.push(x).len() - MAX_CLIPS));
    }
}

/// Pushing clips returns them in arrival order: a new store that is handed
/// `texts` numbers them 0, 1, 2, ... (wrapping after `u64::MAX`) and retains
/// the newest `MAX_CLIPS` of them, oldest first.
pub proof fn law_new_store_keeps_newest_in_order(texts: Seq<Seq<char>>)
    ensures
        push_all(ClipStoreView { next_id: 0, items: Seq::empty() }, texts).next_id == clip_id(
            texts.len(),
        ),
        push_all(ClipStoreView { next_id: 0, items: Seq::empty() }, texts).items == newest(
            numbered(texts),
        ),
    decreases texts.len(),
{
    let e = ClipStoreView { next_id: 0, items: Seq::empty() };
    if texts.len() == 0 {
        assert(numbered(texts) =~= Seq::<(u64, Seq<char>)>::empty());
    } else {
        let prev = texts.drop_last();
        law_new_store_keeps_newest_in_order(prev);
        let n = prev.len();
        lemma_next_clip_id(n);
        assert(numbered(texts) =~= numbered(prev).push((clip_id(n), texts.last())));
        lemma_newest_push(numbered(prev), (clip_id(n), texts.last()));
    }
}

/// After `texts` are pushed onto a new store, `recent` lists exactly the last
/// `min(n, MAX_CLIPS)` of them, oldest first, each with the id its push
/// returned (its position among all pushes, wrapping after `u64::MAX`).
pub proof fn law_recent_lists_last_clips(texts: Seq<Seq<char>>)
    ensures
        ({
            let items = push_all(ClipStoreView { next_id: 0, items: Seq::empty() }, texts).items;
            let n = texts.len() as int;
            let start = if n > MAX_CLIPS {
                n - MAX_CLIPS
            } else {
                0
            };
            &&& items.len() == n - start
            &&& forall|i: int|
                0 <= i < items.len() ==> #[trigger] items[i] == (clip_id((start + i) as nat), texts[start
                    + i])
        }),
{
    law_new_store_keeps_newest_in_order(texts);
}

/// The clip that `push` returns is the newest one retained, and the store
/// never holds more than `MAX_CLIPS` clips.
pub proof fn law_push_retains_newest(s: ClipStoreView, text: Seq<char>)
    requires
        s.items.len() <= MAX_CLIPS,
    ensures
        spec_push(s, text).items.len() <= MAX_CLIPS,
        spec_push(s, text).items.len() > 0,
        spec_push(s, text).items.last() == (s.next_id, text),
{
}

impl Default for ClipStore {
    fn default() -> (r: ClipStore)
        ensures
            r@.next_id == 0,
            r@.items.len() == 0,
    {
        ClipStore::new()
    }
}

} // verus!
