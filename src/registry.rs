//! The table of live connections: identifier to outbound write handle.
//!
//! The registry is the single record of who is connected. Identifiers are
//! drawn at random from a fixed range and never collide with a live one;
//! after a bounded number of colliding draws the lowest free identifier is
//! taken, so allocation always ends. Allocation and insertion happen in one
//! call, so that a caller holding the registry's lock cannot race another
//! over the same identifier.

use vstd::prelude::*;

verus! {

/// Lowest identifier handed out.
pub const ID_LOW: u32 = 10000;

/// Identifiers handed out lie below this.
pub const ID_HIGH: u32 = 16384;

/// Random draws tried before falling back to a scan of the range.
pub const ID_DRAWS: usize = 16;

/// The map that a sequence of `(id, handle)` entries stands for.
pub open spec fn map_of<H>(s: Seq<(u32, H)>) -> Map<u32, H>
    decreases s.len(),
{
    if s.len() == 0 {
        Map::empty()
    } else {
        map_of(s.drop_last()).insert(s.last().0, s.last().1)
    }
}

/// No identifier occurs twice.
pub open spec fn keys_unique<H>(s: Seq<(u32, H)>) -> bool {
    forall|i: int, j: int| 0 <= i < j < s.len() ==> s[i].0 != s[j].0
}

/// An identifier that may be handed out beside those `taken`.
pub open spec fn is_fresh(id: u32, taken: Set<u32>) -> bool {
    ID_LOW <= id < ID_HIGH && !taken.contains(id)
}

/// The first of the draws that may be handed out.
pub open spec fn first_fresh(draws: Seq<u32>, taken: Set<u32>) -> Option<u32>
    decreases draws.len(),
{
    if draws.len() == 0 {
        None
    } else if is_fresh(draws[0], taken) {
        Some(draws[0])
    } else {
        first_fresh(draws.drop_first(), taken)
    }
}

/// The lowest identifier from `from` upward that may be handed out.
pub open spec fn lowest_fresh(taken: Set<u32>, from: int) -> Option<u32>
    decreases ID_HIGH - from,
{
    if from < ID_LOW || from >= ID_HIGH {
        None
    } else if !taken.contains(from as u32) {
        Some(from as u32)
    } else {
        lowest_fresh(taken, from + 1)
    }
}

/// The identifier given to a new connection: the first usable draw, else the
/// lowest free identifier of the range, else none.
pub open spec fn pick_id(draws: Seq<u32>, taken: Set<u32>) -> Option<u32> {
    match first_fresh(draws, taken) {
        Some(id) => Some(id),
        None => lowest_fresh(taken, ID_LOW as int),
    }
}

/// Whether a broadcast from `sender` is written to the connection `id`.
pub open spec fn is_recipient(live: Set<u32>, sender: u32, include_sender: bool, id: u32) -> bool {
    live.contains(id) && (id != sender || include_sender)
}

proof fn lemma_map_of_contains<H>(s: Seq<(u32, H)>, k: u32)
    ensures
        map_of(s).contains_key(k) <==> exists|i: int| 0 <= i < s.len() && #[trigger] s[i].0 == k,
    decreases s.len(),
{
    if s.len() > 0 {
        let p = s.drop_last();
        lemma_map_of_contains(p, k);
        if map_of(p).contains_key(k) {
            let i = choose|i: int| 0 <= i < p.len() && #[trigger] p[i].0 == k;
            assert(s[i] == p[i]);
        }
        if exists|i: int| 0 <= i < s.len() && #[trigger] s[i].0 == k {
            let i = choose|i: int| 0 <= i < s.len() && #[trigger] s[i].0 == k;
            if i < s.len() - 1 {
                assert(p[i] == s[i]);
            }
        }
    }
}

proof fn lemma_map_of_index<H>(s: Seq<(u32, H)>, i: int)
    requires
        keys_unique(s),
        0 <= i < s.len(),
    ensures
        map_of(s).contains_key(s[i].0),
        map_of(s)[s[i].0] == s[i].1,
    decreases s.len(),
{
    let p = s.drop_last();
    if i < s.len() - 1 {
        assert(p[i] == s[i]);
        lemma_map_of_index(p, i);
    }
}

proof fn lemma_map_of_unique_tail<H>(s: Seq<(u32, H)>)
    requires
        keys_unique(s),
        s.len() > 0,
    ensures
        !map_of(s.drop_last()).contains_key(s.last().0),
        keys_unique(s.drop_last()),
{
    let p = s.drop_last();
    lemma_map_of_contains(p, s.last().0);
    if map_of(p).contains_key(s.last().0) {
        let i = choose|i: int| 0 <= i < p.len() && #[trigger] p[i].0 == s.last().0;
        assert(s[i].0 == s[s.len() - 1].0);
    }
}

proof fn lemma_map_of_len<H>(s: Seq<(u32, H)>)
    requires
        keys_unique(s),
    ensures
        map_of(s).dom().finite(),
        map_of(s).len() == s.len(),
    decreases s.len(),
{
    if s.len() > 0 {
        lemma_map_of_unique_tail(s);
        lemma_map_of_len(s.drop_last());
    }
}

proof fn lemma_map_of_remove<H>(s: Seq<(u32, H)>, i: int)
    requires
        keys_unique(s),
        0 <= i < s.len(),
    ensures
        map_of(s.remove(i)) == map_of(s).remove(s[i].0),
        keys_unique(s.remove(i)),
    decreases s.len(),
{
    let p = s.drop_last();
    lemma_map_of_unique_tail(s);
    if i == s.len() - 1 {
        assert(s.remove(i) =~= p);
        assert(map_of(s).remove(s[i].0) =~= map_of(p));
    } else {
        lemma_map_of_remove(p, i);
        let r = s.remove(i);
        assert(r.drop_last() =~= p.remove(i));
        assert(r.last() == s.last());
        assert(s[i] == p[i]);
        assert(map_of(r) =~= map_of(s).remove(s[i].0));
    }
    assert forall|a: int, b: int| 0 <= a < b < s.remove(i).len() implies s.remove(i)[a].0 != s.remove(
        i,
    )[b].0 by {
        let r = s.remove(i);
        let a2 = if a < i { a } else { a + 1 };
        let b2 = if b < i { b } else { b + 1 };
        assert(r[a] == s[a2]);
        assert(r[b] == s[b2]);
    }
}

proof fn lemma_first_fresh(draws: Seq<u32>, taken: Set<u32>)
    ensures
        first_fresh(draws, taken) matches Some(id) ==> is_fresh(id, taken),
    decreases draws.len(),
{
    if draws.len() > 0 {
        lemma_first_fresh(draws.drop_first(), taken);
    }
}

proof fn lemma_lowest_fresh(taken: Set<u32>, from: int)
    requires
        ID_LOW <= from,
    ensures
        lowest_fresh(taken, from) matches Some(id) ==> is_fresh(id, taken) && from <= id,
        lowest_fresh(taken, from) is None <==> forall|id: u32|
            from <= id < ID_HIGH ==> #[trigger] taken.contains(id),
    decreases ID_HIGH - from,
{
    if from < ID_HIGH {
        lemma_lowest_fresh(taken, from + 1);
        if lowest_fresh(taken, from) is None {
            assert forall|id: u32| from <= id < ID_HIGH implies #[trigger] taken.contains(id) by {
                if id != from {
                    assert(from + 1 <= id);
                }
            }
        }
    }
}

proof fn lemma_pick_id(draws: Seq<u32>, taken: Set<u32>)
    ensures
        pick_id(draws, taken) matches Some(id) ==> is_fresh(id, taken),
        pick_id(draws, taken) is Some <==> exists|id: u32| is_fresh(id, taken),
{
    lemma_first_fresh(draws, taken);
    lemma_lowest_fresh(taken, ID_LOW as int);
    if pick_id(draws, taken) is None {
        assert forall|id: u32| !is_fresh(id, taken) by {
            if ID_LOW <= id < ID_HIGH {
                assert(taken.contains(id));
            }
        }
    }
}

proof fn lemma_range_len(k: int)
    requires
        ID_LOW <= k <= ID_HIGH,
    ensures
        Set::new(|id: u32| ID_LOW <= id < k).finite(),
        Set::new(|id: u32| ID_LOW <= id < k).len() == k - ID_LOW,
    decreases k - ID_LOW,
{
    let r = Set::new(|id: u32| ID_LOW <= id < k);
    if k == ID_LOW {
        assert(r =~= Set::<u32>::empty());
    } else {
        lemma_range_len(k - 1);
        let q = Set::new(|id: u32| ID_LOW <= id < k - 1);
        assert(r =~= q.insert((k - 1) as u32));
    }
}

/// While fewer identifiers than the range holds are taken, one is free.
proof fn lemma_fresh_exists(taken: Set<u32>)
    requires
        taken.finite(),
        taken.len() < ID_HIGH - ID_LOW,
    ensures
        exists|id: u32| is_fresh(id, taken),
{
    let r = Set::new(|id: u32| ID_LOW <= id < ID_HIGH);
    lemma_range_len(ID_HIGH as int);
    if forall|id: u32| !is_fresh(id, taken) {
        assert forall|id: u32| r.contains(id) implies taken.contains(id) by {
            assert(!is_fresh(id, taken));
        }
        assert(r.subset_of(taken));
        vstd::set_lib::lemma_len_subset(r, taken);
    }
}

/// The identifiers given to connections that join one after the other, each
/// with its own draws, starting beside those `taken`.
pub open spec fn assigned_ids(taken: Set<u32>, rounds: Seq<Seq<u32>>) -> Seq<Option<u32>>
    decreases rounds.len(),
{
    if rounds.len() == 0 {
        Seq::empty()
    } else {
        let r = pick_id(rounds[0], taken);
        let next = match r {
            Some(id) => taken.insert(id),
            None => taken,
        };
        seq![r] + assigned_ids(next, rounds.drop_first())
    }
}

/// Connections that join one after the other each receive an identifier
/// that no live connection holds and that no other of them received; while
/// the range is not exhausted, every one of them receives one.
pub proof fn lemma_assigned_ids_distinct(taken: Set<u32>, rounds: Seq<Seq<u32>>)
    requires
        taken.finite(),
    ensures
        assigned_ids(taken, rounds).len() == rounds.len(),
        taken.len() + rounds.len() <= ID_HIGH - ID_LOW ==> forall|i: int|
            0 <= i < rounds.len() ==> (#[trigger] assigned_ids(taken, rounds)[i]) is Some,
        forall|i: int| #![trigger assigned_ids(taken, rounds)[i]]
            0 <= i < rounds.len() && assigned_ids(taken, rounds)[i] is Some
                ==> is_fresh(assigned_ids(taken, rounds)[i]->Some_0, taken),
        forall|i: int, j: int|
            0 <= i < j < rounds.len() && (#[trigger] assigned_ids(taken, rounds)[i]) is Some
                && (#[trigger] assigned_ids(taken, rounds)[j]) is Some
                ==> assigned_ids(taken, rounds)[i] != assigned_ids(taken, rounds)[j],
    decreases rounds.len(),
{
    if rounds.len() > 0 {
        let r = pick_id(rounds[0], taken);
        lemma_pick_id(rounds[0], taken);
        let next = match r {
            Some(id) => taken.insert(id),
            None => taken,
        };
        let rest = rounds.drop_first();
        if taken.len() < ID_HIGH - ID_LOW {
            lemma_fresh_exists(taken);
        }
        lemma_assigned_ids_distinct(next, rest);
        let all = assigned_ids(taken, rounds);
        let tail = assigned_ids(next, rest);
        if taken.len() + rounds.len() <= ID_HIGH - ID_LOW {
            assert(next.len() == taken.len() + 1);
            assert forall|i: int| 0 <= i < rounds.len() implies (#[trigger] all[i]) is Some by {
                if i > 0 {
                    assert(all[i] == tail[i - 1]);
                }
            }
        }
        assert(all == seq![r] + tail);
        assert forall|i: int| 0 <= i < rounds.len() && all[i] is Some implies is_fresh(
            all[i]->Some_0,
            taken,
        ) by {
            if i > 0 {
                assert(all[i] == tail[i - 1]);
            }
        }
        assert forall|i: int, j: int|
            0 <= i < j < rounds.len() && (#[trigger] all[i]) is Some && (#[trigger] all[j]) is Some
                implies all[i] != all[j] by {
            assert(all[j] == tail[j - 1]);
            if i > 0 {
                assert(all[i] == tail[i - 1]);
            } else {
                assert(is_fresh(tail[j - 1]->Some_0, next));
            }
        }
    }
}

/// Once a connection has left, no broadcast is written to its handle, and
/// its identifier may be handed to the next connection that draws it.
pub proof fn lemma_reuse_after_leave(live: Set<u32>, id: u32, sender: u32, include_sender: bool)
    requires
        ID_LOW <= id < ID_HIGH,
    ensures
        !is_recipient(live.remove(id), sender, include_sender, id),
        pick_id(seq![id], live.remove(id)) == Some(id),
{
    assert(is_fresh(id, live.remove(id)));
}

/// Relies on rand::random_range: a value drawn from `lo..hi`, a range that
/// is not empty.
#[verifier::external_body]
fn draw_in_range(lo: u32, hi: u32) -> (r: u32)
    requires
        lo < hi,
    ensures
        lo <= r < hi,
{
    rand::random_range(lo..hi)
}

pub struct Registry<H> {
    entries: Vec<(u32, H)>,
}

impl<H> View for Registry<H> {
    type V = Map<u32, H>;

    /// Each live identifier with its write handle.
    closed spec fn view(&self) -> Map<u32, H> {
        map_of(self.entries@)
    }
}

impl<H> Registry<H> {
    pub closed spec fn wf(&self) -> bool {
        keys_unique(self.entries@)
    }

    pub fn new() -> (r: Registry<H>)
        ensures
            r.wf(),
            r@ == Map::<u32, H>::empty(),
    {
        let r = Registry { entries: Vec::new() };
        assert(r@ == Map::<u32, H>::empty());
        r
    }

    /// Number of live connections.
    pub fn len(&self) -> (n: usize)
        requires
            self.wf(),
        ensures
            self@.dom().finite(),
            n == self@.len(),
    {
        proof {
            lemma_map_of_len(self.entries@);
        }
        self.entries.len()
    }

    /// Position of an identifier among the entries.
    fn position(&self, id: u32) -> (r: Option<usize>)
        requires
            self.wf(),
        ensures
            r matches Some(i) ==> i < self.entries@.len() && self.entries@[i as int].0 == id,
            r is None ==> !self@.contains_key(id),
    {
        let mut i: usize = 0;
        while i < self.entries.len()
            invariant
                i <= self.entries@.len(),
                forall|j: int| 0 <= j < i ==> #[trigger] self.entries@[j].0 != id,
            decreases self.entries@.len() - i,
        {
            if self.entries[i].0 == id {
                return Some(i);
            }
            i = i + 1;
        }
        proof {
            lemma_map_of_contains(self.entries@, id);
        }
        None
    }

    pub fn contains(&self, id: u32) -> (r: bool)
        requires
            self.wf(),
        ensures
            r == self@.contains_key(id),
    {
        match self.position(id) {
            Some(i) => {
                proof {
                    lemma_map_of_index(self.entries@, i as int);
                }
                true
            },
            None => false,
        }
    }

    /// The write handle of a live connection.
    pub fn get(&self, id: u32) -> (r: Option<&H>)
        requires
            self.wf(),
        ensures
            r is Some <==> self@.contains_key(id),
            r matches Some(h) ==> *h == self@[id],
    {
        match self.position(id) {
            Some(i) => {
                proof {
                    lemma_map_of_index(self.entries@, i as int);
                }
                Some(&self.entries[i].1)
            },
            None => None,
        }
    }

    /// Whether a newly accepted connection may be kept under a limit of
    /// `max_players` live connections.
    pub fn has_room(&self, max_players: i32) -> (r: bool)
        requires
            self.wf(),
        ensures
            r == (self@.len() < max_players),
    {
        let n = self.len();
        max_players > 0 && n < max_players as usize
    }

    /// The identifier that a new connection would receive: the first draw
    /// in range that no live connection holds, else the lowest such
    /// identifier, else none when every identifier of the range is live.
    pub fn choose_id(&self, draws: &[u32]) -> (r: Option<u32>)
        requires
            self.wf(),
        ensures
            r == pick_id(draws@, self@.dom()),
            r matches Some(id) ==> is_fresh(id, self@.dom()),
            r is Some <==> exists|id: u32| is_fresh(id, self@.dom()),
    {
        proof {
            lemma_pick_id(draws@, self@.dom());
        }
        let mut i: usize = 0;
        assert(draws@.subrange(0, draws@.len() as int) =~= draws@);
        while i < draws.len()
            invariant
                i <= draws@.len(),
                self.wf(),
                first_fresh(draws@, self@.dom()) == first_fresh(draws@.subrange(i as int, draws@.len() as int), self@.dom()),
            decreases draws@.len() - i,
        {
            let d = draws[i];
            let ghost rest = draws@.subrange(i as int, draws@.len() as int);
            assert(rest[0] == d);
            assert(rest.drop_first() =~= draws@.subrange(i + 1, draws@.len() as int));
            if ID_LOW <= d && d < ID_HIGH && !self.contains(d) {
                return Some(d);
            }
            i = i + 1;
        }
        assert(draws@.subrange(i as int, draws@.len() as int).len() == 0);
        assert(first_fresh(draws@, self@.dom()) is None);
        let mut c: u32 = ID_LOW;
        while c < ID_HIGH
            invariant
                ID_LOW <= c <= ID_HIGH,
                self.wf(),
                first_fresh(draws@, self@.dom()) is None,
                lowest_fresh(self@.dom(), ID_LOW as int) == lowest_fresh(self@.dom(), c as int),
            decreases ID_HIGH - c,
        {
            if !self.contains(c) {
                assert(lowest_fresh(self@.dom(), c as int) == Some(c));
                return Some(c);
            }
            c = c + 1;
        }
        None
    }

    /// Gives a new connection an identifier chosen as `choose_id` does and
    /// records its handle; when every identifier is live, nothing changes.
    pub fn join(&mut self, draws: &[u32], handle: H) -> (r: Option<u32>)
        requires
            old(self).wf(),
        ensures
            final(self).wf(),
            r == pick_id(draws@, old(self)@.dom()),
            r is Some <==> exists|id: u32| is_fresh(id, old(self)@.dom()),
            r matches Some(id) ==> is_fresh(id, old(self)@.dom()) && final(self)@ == old(self)@.insert(id, handle),
            r is None ==> final(self)@ == old(self)@,
    {
        let r = self.choose_id(draws);
        match r {
            Some(id) => {
                let ghost s = self.entries@;
                proof {
                    lemma_map_of_contains(s, id);
                }
                self.entries.push((id, handle));
                assert(self.entries@.drop_last() =~= s);
                assert forall|i: int, j: int| 0 <= i < j < self.entries@.len() implies self.entries@[i].0
                    != self.entries@[j].0 by {
                    if j == s.len() {
                        assert(s[i] == self.entries@[i]);
                    } else {
                        assert(s[i] == self.entries@[i]);
                        assert(s[j] == self.entries@[j]);
                    }
                }
            },
            None => {},
        }
        r
    }

    /// Registers a new connection under a fresh random identifier. It fails
    /// only when every identifier of the range is live.
    pub fn register(&mut self, handle: H) -> (r: Option<u32>)
        requires
            old(self).wf(),
        ensures
            final(self).wf(),
            r is Some <==> exists|id: u32| is_fresh(id, old(self)@.dom()),
            r matches Some(id) ==> is_fresh(id, old(self)@.dom()) && final(self)@ == old(self)@.insert(id, handle),
            r is None ==> final(self)@ == old(self)@,
    {
        let mut draws: Vec<u32> = Vec::new();
        let mut k: usize = 0;
        while k < ID_DRAWS
            invariant
                k <= ID_DRAWS,
            decreases ID_DRAWS - k,
        {
            draws.push(draw_in_range(ID_LOW, ID_HIGH));
            k = k + 1;
        }
        self.join(draws.as_slice(), handle)
    }

    /// The live identifiers that a broadcast from `sender` is written to:
    /// every other one, and the sender too when `include_sender` holds.
    pub fn recipients(&self, sender: u32, include_sender: bool) -> (r: Vec<u32>)
        requires
            self.wf(),
        ensures
            r@.no_duplicates(),
            forall|id: u32| r@.contains(id) <==> is_recipient(self@.dom(), sender, include_sender, id),
    {
        let mut r: Vec<u32> = Vec::new();
        let mut i: usize = 0;
        while i < self.entries.len()
            invariant
                i <= self.entries@.len(),
                self.wf(),
                r@.no_duplicates(),
                forall|k: int| #![trigger r@[k]] 0 <= k < r@.len() ==> exists|j: int| 0 <= j < i && #[trigger] self.entries@[j].0 == r@[k],
                forall|j: int| 0 <= j < i && (self.entries@[j].0 != sender || include_sender)
                    ==> r@.contains(#[trigger] self.entries@[j].0),
                forall|k: int| 0 <= k < r@.len() ==> (r@[k] != sender || include_sender),
            decreases self.entries@.len() - i,
        {
            let id = self.entries[i].0;
            if id != sender || include_sender {
                assert(!r@.contains(id)) by {
                    if r@.contains(id) {
                        let k = choose|k: int| 0 <= k < r@.len() && r@[k] == id;
                        let j = choose|j: int| 0 <= j < i && #[trigger] self.entries@[j].0 == r@[k];
                        assert(self.entries@[j].0 == self.entries@[i as int].0);
                    }
                }
                let ghost before = r@;
                r.push(id);
                assert forall|k: int| #![trigger r@[k]] 0 <= k < r@.len() implies exists|j: int| 0 <= j < i + 1 && #[trigger] self.entries@[j].0 == r@[k] by {
                    if k == r@.len() - 1 {
                        assert(self.entries@[i as int].0 == r@[k]);
                    } else {
                        let j = choose|j: int| 0 <= j < i && #[trigger] self.entries@[j].0 == r@[k];
                        assert(self.entries@[j].0 == r@[k]);
                    }
                }
                assert forall|j: int| 0 <= j < i + 1 && (self.entries@[j].0 != sender || include_sender) implies r@.contains(#[trigger] self.entries@[j].0) by {
                    if j == i {
                        assert(r@[r@.len() - 1] == id);
                    } else {
                        assert(before.contains(self.entries@[j].0));
                        let k = choose|k: int| 0 <= k < before.len() && before[k] == self.entries@[j].0;
                        assert(r@[k] == before[k]);
                    }
                }
            }
            i = i + 1;
        }
        assert forall|id: u32| r@.contains(id) <==> is_recipient(self@.dom(), sender, include_sender, id) by {
            lemma_map_of_contains(self.entries@, id);
            if r@.contains(id) {
                let k = choose|k: int| 0 <= k < r@.len() && r@[k] == id;
                let j = choose|j: int| 0 <= j < i && #[trigger] self.entries@[j].0 == r@[k];
                assert(self.entries@[j].0 == id);
            }
            if is_recipient(self@.dom(), sender, include_sender, id) {
                let j = choose|j: int| 0 <= j < self.entries@.len() && #[trigger] self.entries@[j].0 == id;
                assert(r@.contains(self.entries@[j].0));
            }
        }
        r
    }

    /// Every live identifier, each once.
    pub fn ids(&self) -> (r: Vec<u32>)
        requires
            self.wf(),
        ensures
            r@.no_duplicates(),
            forall|id: u32| r@.contains(id) <==> self@.contains_key(id),
    {
        self.recipients(0, true)
    }

    /// Forgets a connection; nothing happens when it is not live.
    pub fn remove(&mut self, id: u32)
        requires
            old(self).wf(),
        ensures
            final(self).wf(),
            final(self)@ == old(self)@.remove(id),
    {
        match self.position(id) {
            Some(i) => {
                proof {
                    lemma_map_of_remove(self.entries@, i as int);
                }
                self.entries.remove(i);
            },
            None => {
                assert(self@.remove(id) =~= self@);
            },
        }
    }
}

} // verus!
