//! The balance ledger: each deposited account's asset-A and asset-B
//! holdings, viewed as a map from address bytes to balances.

use vstd::prelude::*;

use crate::addr::Addr;

verus! {

/// One account's holdings: `a` units of the traded asset and `b` units of
/// the quote asset.
#[derive(Clone, Copy, PartialEq, Eq, Structural, Debug)]
pub struct UserBalance {
    pub a: u64,
    pub b: u64,
}

/// No account appears twice in the ledger.
pub open spec fn bal_keys_distinct(s: Seq<(Addr, UserBalance)>) -> bool {
    forall|i: int, j: int| 0 <= i < j < s.len() ==> (#[trigger] s[i]).0@ != (#[trigger] s[j]).0@
}

/// The ledger entries as a map from address bytes to balances.
pub open spec fn bal_view(s: Seq<(Addr, UserBalance)>) -> Map<Seq<u8>, UserBalance> {
    Map::new(
        |a: Seq<u8>| exists|t: int| 0 <= t < s.len() && (#[trigger] s[t]).0@ == a,
        |a: Seq<u8>|
            {
                let t = choose|t: int| 0 <= t < s.len() && (#[trigger] s[t]).0@ == a;
                s[t].1
            },
    )
}

proof fn lemma_bal_view_at(s: Seq<(Addr, UserBalance)>, k: int)
    requires
        bal_keys_distinct(s),
        0 <= k < s.len(),
    ensures
        bal_view(s).contains_key(s[k].0@),
        bal_view(s)[s[k].0@] == s[k].1,
{
    let a = s[k].0@;
    assert(0 <= k < s.len() && s[k].0@ == a);
    assert(bal_view(s).contains_key(a));
    let t = choose|t: int| 0 <= t < s.len() && (#[trigger] s[t]).0@ == a;
    assert(0 <= t < s.len() && s[t].0@ == a);
    if t < k {
        assert(s[t].0@ != s[k].0@);
    } else if t > k {
        assert(s[k].0@ != s[t].0@);
    }
    assert(t == k);
}

/// The ledger. An account exists here iff it has been deposited into.
pub struct Ledger {
    pub entries: Vec<(Addr, UserBalance)>,
}

impl View for Ledger {
    type V = Map<Seq<u8>, UserBalance>;

    open spec fn view(&self) -> Map<Seq<u8>, UserBalance> {
        bal_view(self.entries@)
    }
}

impl Ledger {
    /// The ledger invariant: one entry per account.
    pub open spec fn wf(&self) -> bool {
        bal_keys_distinct(self.entries@)
    }

    /// The empty ledger.
    pub fn new() -> (r: Ledger)
        ensures
            r.wf(),
            r@ == Map::<Seq<u8>, UserBalance>::empty(),
    {
        let r = Ledger { entries: Vec::new() };
        proof {
            assert(r@ =~= Map::<Seq<u8>, UserBalance>::empty());
        }
        r
    }

    fn find(&self, addr: &Addr) -> (r: Option<usize>)
        ensures
            r is Some ==> 0 <= r->0 < self.entries@.len() && self.entries@[r->0 as int].0@
                == addr@,
            r is None ==> !self@.contains_key(addr@),
    {
        let mut i: usize = 0;
        while i < self.entries.len()
            invariant
                0 <= i <= self.entries@.len(),
                forall|t: int| 0 <= t < i ==> (#[trigger] self.entries@[t]).0@ != addr@,
            decreases self.entries@.len() - i,
        {
            if self.entries[i].0.same_as(addr) {
                return Some(i);
            }
            i = i + 1;
        }
        proof {
            if self@.contains_key(addr@) {
                let t = choose|t: int|
                    0 <= t < self.entries@.len() && (#[trigger] self.entries@[t]).0@ == addr@;
                assert(self.entries@[t].0@ != addr@);
            }
        }
        None
    }

    /// The balance of an account, or `None` for an account never deposited
    /// into.
    pub fn get(&self, addr: &Addr) -> (r: Option<UserBalance>)
        requires
            self.wf(),
        ensures
            r is Some <==> self@.contains_key(addr@),
            r is Some ==> r->0 == self@[addr@],
    {
        match self.find(addr) {
            Some(i) => {
                proof {
                    lemma_bal_view_at(self.entries@, i as int);
                }
                Some(self.entries[i].1)
            },
            None => None,
        }
    }

    /// Writes an account's balance, replacing any existing entry.
    pub fn set(&mut self, addr: Addr, bal: UserBalance)
        requires
            old(self).wf(),
        ensures
            final(self).wf(),
            final(self)@ == old(self)@.insert(addr@, bal),
    {
        let ghost s = self.entries@;
        let pos = self.find(&addr);
        let ghost av = addr@;
        match pos {
            Some(i) => {
                self.entries.remove(i);
                self.entries.insert(i, (addr, bal));
                proof {
                    let s2 = self.entries@;
                    assert forall|t: int| 0 <= t < s2.len() implies s2[t] == (if t == i as int {
                        (addr, bal)
                    } else {
                        s[t]
                    }) by {}
                    assert(bal_keys_distinct(s2)) by {
                        assert forall|t1: int, t2: int| 0 <= t1 < t2 < s2.len() implies (
                        #[trigger] s2[t1]).0@ != (#[trigger] s2[t2]).0@ by {
                            assert(s2[t1].0@ == s[t1].0@ && s2[t2].0@ == s[t2].0@);
                        }
                    }
                    assert(bal_view(s2) =~= bal_view(s).insert(av, bal)) by {
                        assert forall|x: Seq<u8>|
                            bal_view(s2).contains_key(x) <==> bal_view(s).insert(
                                av,
                                bal,
                            ).contains_key(x) by {
                            if bal_view(s2).contains_key(x) {
                                let t = choose|t: int|
                                    0 <= t < s2.len() && (#[trigger] s2[t]).0@ == x;
                                assert(s[t].0@ == x);
                            }
                            if bal_view(s).contains_key(x) {
                                let t = choose|t: int| 0 <= t < s.len() && (#[trigger] s[t]).0@
                                    == x;
                                assert(s2[t].0@ == x);
                            }
                            if x == av {
                                assert(s2[i as int].0@ == x);
                            }
                        }
                        assert forall|x: Seq<u8>|
                            bal_view(s2).contains_key(x) implies bal_view(s2)[x] == bal_view(
                            s,
                        ).insert(av, bal)[x] by {
                            let t = choose|t: int| 0 <= t < s2.len() && (#[trigger] s2[t]).0@
                                == x;
                            lemma_bal_view_at(s2, t);
                            if x == av {
                                if t != i as int {
                                    assert(s[t].0@ == x && s[i as int].0@ == x);
                                    assert(false);
                                }
                                assert(bal_view(s2)[x] == bal);
                            } else {
                                assert(t != i as int);
                                assert(s[t].0@ == x);
                                lemma_bal_view_at(s, t);
                                assert(bal_view(s2)[x] == s2[t].1 && s2[t].1 == s[t].1);
                            }
                        }
                    }
                }
            },
            None => {
                self.entries.push((addr, bal));
                proof {
                    let s2 = self.entries@;
                    assert(!bal_view(s).contains_key(av)) by {}
                    assert forall|t: int| 0 <= t < s.len() implies (#[trigger] s[t]).0@ != av by {
                        if s[t].0@ == av {
                            assert(bal_view(s).contains_key(av));
                        }
                    }
                    assert(bal_keys_distinct(s2)) by {
                        assert forall|t1: int, t2: int| 0 <= t1 < t2 < s2.len() implies (
                        #[trigger] s2[t1]).0@ != (#[trigger] s2[t2]).0@ by {
                            if t2 == s.len() {
                                assert(s2[t1].0@ == s[t1].0@ && s2[t2].0@ == av);
                            } else {
                                assert(s2[t1].0@ == s[t1].0@ && s2[t2].0@ == s[t2].0@);
                            }
                        }
                    }
                    assert(bal_view(s2) =~= bal_view(s).insert(av, bal)) by {
                        assert forall|x: Seq<u8>|
                            bal_view(s2).contains_key(x) <==> bal_view(s).insert(
                                av,
                                bal,
                            ).contains_key(x) by {
                            if bal_view(s2).contains_key(x) {
                                let t = choose|t: int|
                                    0 <= t < s2.len() && (#[trigger] s2[t]).0@ == x;
                                if t < s.len() {
                                    assert(s[t].0@ == x);
                                } else {
                                    assert(x == av);
                                }
                            }
                            if bal_view(s).contains_key(x) {
                                let t = choose|t: int| 0 <= t < s.len() && (#[trigger] s[t]).0@
                                    == x;
                                assert(s2[t].0@ == x);
                            }
                            if x == av {
                                assert(s2[s.len() as int].0@ == x);
                            }
                        }
                        assert forall|x: Seq<u8>|
                            bal_view(s2).contains_key(x) implies bal_view(s2)[x] == bal_view(
                            s,
                        ).insert(av, bal)[x] by {
                            let t = choose|t: int| 0 <= t < s2.len() && (#[trigger] s2[t]).0@
                                == x;
                            lemma_bal_view_at(s2, t);
                            if x == av {
                                assert(t == s.len()) by {
                                    if t < s.len() {
                                        assert(s[t].0@ != av);
                                    }
                                }
                                assert(bal_view(s2)[x] == bal);
                            } else {
                                assert(t < s.len());
                                assert(s[t].0@ == x);
                                lemma_bal_view_at(s, t);
                                assert(bal_view(s2)[x] == s2[t].1 && s2[t].1 == s[t].1);
                            }
                        }
                    }
                }
            },
        }
    }
}

} // verus!
