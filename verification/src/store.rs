use vstd::prelude::*;

use crate::error::EscrowError;
use crate::state::EscrowAddress;
use crate::state::EscrowState;

verus! {

/// Whether an active record occupies `addr`.
pub open spec fn has_record(s: Seq<EscrowState>, addr: EscrowAddress) -> bool {
    exists|i: int| 0 <= i < s.len() && s[i].address() == addr
}

/// Index of the record at `addr`; meaningful under [`unique_addresses`].
pub open spec fn record_idx(s: Seq<EscrowState>, addr: EscrowAddress) -> int {
    choose|i: int| 0 <= i < s.len() && s[i].address() == addr
}

/// The record stored at `addr`.
pub open spec fn record_at(s: Seq<EscrowState>, addr: EscrowAddress) -> EscrowState {
    s[record_idx(s, addr)]
}

/// No two active records share a derived address.
pub open spec fn unique_addresses(s: Seq<EscrowState>) -> bool {
    forall|i: int, j: int| 0 <= i < j < s.len() ==> s[i].address() != s[j].address()
}

/// Under unique addresses, an index holding `addr` is the record of `addr`.
pub proof fn lemma_record_at(s: Seq<EscrowState>, addr: EscrowAddress, i: int)
    requires
        unique_addresses(s),
        0 <= i < s.len(),
        s[i].address() == addr,
    ensures
        has_record(s, addr),
        record_idx(s, addr) == i,
        record_at(s, addr) == s[i],
{
    assert(has_record(s, addr));
    let j = record_idx(s, addr);
    assert(0 <= j < s.len() && s[j].address() == addr);
    if j != i {
        assert(s[i].address() != s[j].address());
        assert(false);
    }
}

/// Uniqueness law: in a well-formed store, at most one active record exists
/// at any derived address — two indices holding the same address coincide.
pub proof fn lemma_record_unique(s: Seq<EscrowState>, i: int, j: int)
    requires
        unique_addresses(s),
        0 <= i < s.len(),
        0 <= j < s.len(),
        s[i].address() == s[j].address(),
    ensures
        i == j,
{
    if i != j {
        assert(s[i].address() != s[j].address());
    }
}

/// Effect of appending a record at a fresh address.
pub proof fn lemma_record_push(s: Seq<EscrowState>, r: EscrowState)
    requires
        unique_addresses(s),
        !has_record(s, r.address()),
    ensures
        unique_addresses(s.push(r)),
        forall|a: EscrowAddress|
            #[trigger] has_record(s.push(r), a) == (has_record(s, a) || a == r.address()),
        record_at(s.push(r), r.address()) == r,
        forall|a: EscrowAddress|
            has_record(s, a) ==> #[trigger] record_at(s.push(r), a) == record_at(s, a),
{
    let t = s.push(r);
    let n = s.len() as int;
    assert(t[n] == r);
    assert forall|x: int, y: int| 0 <= x < y < t.len() implies t[x].address() != t[y].address()
        by {
        if y == n {
            assert(t[x] == s[x]);
            if s[x].address() == r.address() {
                assert(has_record(s, r.address()));
            }
        } else {
            assert(s[x].address() != s[y].address());
        }
    }
    assert(unique_addresses(t));
    assert forall|a: EscrowAddress|
        #[trigger] has_record(t, a) == (has_record(s, a) || a == r.address()) by {
        if has_record(s, a) {
            let w = choose|w: int| 0 <= w < s.len() && s[w].address() == a;
            assert(t[w].address() == a);
            assert(has_record(t, a));
        }
        if a == r.address() {
            assert(t[n].address() == a);
            assert(has_record(t, a));
        }
        if has_record(t, a) && a != r.address() {
            let w = choose|w: int| 0 <= w < t.len() && t[w].address() == a;
            assert(w != n);
            assert(s[w].address() == a);
            assert(has_record(s, a));
        }
    }
    lemma_record_at(t, r.address(), n);
    assert forall|a: EscrowAddress| has_record(s, a) implies #[trigger] record_at(t, a)
        == record_at(s, a) by {
        let w = choose|w: int| 0 <= w < s.len() && s[w].address() == a;
        lemma_record_at(s, a, w);
        assert(t[w] == s[w]);
        lemma_record_at(t, a, w);
    }
}

/// Effect of removing one record on existence and on the other records.
pub proof fn lemma_record_remove(s: Seq<EscrowState>, i: int)
    requires
        unique_addresses(s),
        0 <= i < s.len(),
    ensures
        unique_addresses(s.remove(i)),
        forall|a: EscrowAddress|
            #[trigger] has_record(s.remove(i), a) == (has_record(s, a) && a != s[i].address()),
        forall|a: EscrowAddress|
            has_record(s, a) && a != s[i].address() ==> #[trigger] record_at(s.remove(i), a)
                == record_at(s, a),
{
    let t = s.remove(i);
    assert forall|k: int| 0 <= k < t.len() implies #[trigger] t[k] == (if k < i {
        s[k]
    } else {
        s[k + 1]
    }) by {}
    assert forall|x: int, y: int| 0 <= x < y < t.len() implies t[x].address() != t[y].address()
        by {
        let sx: int = if x < i { x } else { x + 1 };
        let sy: int = if y < i { y } else { y + 1 };
        assert(t[x] == s[sx]);
        assert(t[y] == s[sy]);
        assert(s[sx].address() != s[sy].address());
    }
    assert(unique_addresses(t));
    assert forall|a: EscrowAddress|
        #[trigger] has_record(t, a) == (has_record(s, a) && a != s[i].address()) by {
        if has_record(t, a) {
            let w = choose|w: int| 0 <= w < t.len() && t[w].address() == a;
            let sw: int = if w < i { w } else { w + 1 };
            assert(t[w] == s[sw]);
            assert(has_record(s, a));
            if a == s[i].address() {
                assert(sw != i);
                assert(s[sw].address() != s[i].address());
                assert(false);
            }
        }
        if has_record(s, a) && a != s[i].address() {
            let w = choose|w: int| 0 <= w < s.len() && s[w].address() == a;
            assert(w != i);
            let tw: int = if w < i { w } else { w - 1 };
            assert(t[tw] == s[w]);
            assert(has_record(t, a));
        }
    }
    assert forall|a: EscrowAddress| has_record(s, a) && a != s[i].address() implies #[trigger]
        record_at(t, a) == record_at(s, a) by {
        let w = choose|w: int| 0 <= w < s.len() && s[w].address() == a;
        lemma_record_at(s, a, w);
        assert(w != i);
        let tw: int = if w < i { w } else { w - 1 };
        assert(t[tw] == s[w]);
        lemma_record_at(t, a, tw);
    }
}

/// Durable keyed storage of escrow records, addressed deterministically by
/// (maker identity, seed).
pub struct RecordStore {
    records: Vec<EscrowState>,
}

impl View for RecordStore {
    type V = Seq<EscrowState>;

    closed spec fn view(&self) -> Seq<EscrowState> {
        self.records@
    }
}

impl RecordStore {
    /// Well-formed: no two active records share an address.
    pub open spec fn wf(self) -> bool {
        unique_addresses(self@)
    }

    /// An empty store.
    pub fn new() -> (s: RecordStore)
        ensures
            s.wf(),
            s@.len() == 0,
    {
        RecordStore { records: Vec::new() }
    }

    /// Index of the record at `addr`, if one exists.
    fn find_index(&self, addr: EscrowAddress) -> (idx: Option<usize>)
        ensures
            match idx {
                Some(i) => i < self@.len() && self@[i as int].address() == addr,
                None => !has_record(self@, addr),
            },
    {
        let n = self.records.len();
        let mut k: usize = 0;
        while k < n
            invariant
                n == self.records.len(),
                k <= n,
                forall|j: int| 0 <= j < k ==> self@[j].address() != addr,
            decreases n - k,
        {
            let r = self.records[k];
            if r.maker == addr.maker && r.seed == addr.seed {
                return Some(k);
            }
            k += 1;
        }
        None
    }

    /// Whether an active record occupies `addr`.
    pub fn contains(&self, addr: EscrowAddress) -> (b: bool)
        ensures
            b == has_record(self@, addr),
    {
        match self.find_index(addr) {
            Some(i) => {
                proof {
                    assert(self@[i as int].address() == addr);
                }
                true
            },
            None => false,
        }
    }

    /// Store a record at its derived address. Fails with `AlreadyExists`,
    /// changing nothing, exactly when an active record occupies the address.
    pub fn create(&mut self, state: EscrowState) -> (r: Result<(), EscrowError>)
        requires
            old(self).wf(),
        ensures
            final(self).wf(),
            r == if has_record(old(self)@, state.address()) {
                Err::<(), EscrowError>(EscrowError::AlreadyExists)
            } else {
                Ok::<(), EscrowError>(())
            },
            r is Err ==> final(self)@ == old(self)@,
            r is Ok ==> record_at(final(self)@, state.address()) == state,
            r is Ok ==> forall|a: EscrowAddress|
                #[trigger] has_record(final(self)@, a) == (has_record(old(self)@, a) || a
                    == state.address()),
            r is Ok ==> forall|a: EscrowAddress|
                has_record(old(self)@, a) ==> #[trigger] record_at(final(self)@, a) == record_at(
                    old(self)@,
                    a,
                ),
    {
        let addr = EscrowAddress { maker: state.maker, seed: state.seed };
        match self.find_index(addr) {
            Some(i) => {
                proof {
                    assert(self@[i as int].address() == state.address());
                }
                Err(EscrowError::AlreadyExists)
            },
            None => {
                proof {
                    lemma_record_push(self@, state);
                }
                self.records.push(state);
                Ok(())
            },
        }
    }

    /// Read the record at `addr`. Fails with `NotFound` when absent.
    pub fn read(&self, addr: EscrowAddress) -> (r: Result<EscrowState, EscrowError>)
        requires
            self.wf(),
        ensures
            r == if has_record(self@, addr) {
                Ok::<EscrowState, EscrowError>(record_at(self@, addr))
            } else {
                Err::<EscrowState, EscrowError>(EscrowError::NotFound)
            },
    {
        match self.find_index(addr) {
            Some(i) => {
                proof {
                    lemma_record_at(self@, addr, i as int);
                }
                Ok(self.records[i])
            },
            None => Err(EscrowError::NotFound),
        }
    }

    /// Remove the record at `addr`, reclaiming its storage to whoever paid
    /// for creation. Fails with `NotFound`, changing nothing, when absent.
    pub fn delete(&mut self, addr: EscrowAddress) -> (r: Result<(), EscrowError>)
        requires
            old(self).wf(),
        ensures
            final(self).wf(),
            r == if has_record(old(self)@, addr) {
                Ok::<(), EscrowError>(())
            } else {
                Err::<(), EscrowError>(EscrowError::NotFound)
            },
            r is Err ==> final(self)@ == old(self)@,
            r is Ok ==> forall|a: EscrowAddress|
                #[trigger] has_record(final(self)@, a) == (has_record(old(self)@, a) && a != addr),
            r is Ok ==> forall|a: EscrowAddress|
                has_record(old(self)@, a) && a != addr ==> #[trigger] record_at(final(self)@, a)
                    == record_at(old(self)@, a),
    {
        match self.find_index(addr) {
            Some(i) => {
                proof {
                    lemma_record_at(self@, addr, i as int);
                    lemma_record_remove(self@, i as int);
                }
                self.records.remove(i);
                Ok(())
            },
            None => Err(EscrowError::NotFound),
        }
    }
}

} // verus!
