//! The validator set and deterministic proposer selection.
//!
//! Validators are kept in ascending byte-lexicographic order of their public
//! keys. For a round keyed by the latest block hash `h`, the proposer is the
//! key at index `seed mod N` of that order, where `seed` is the
//! little-endian integer of `h[0..8]` and `N` the number of validators.
use crate::bytes::{eq32, le_value, read_u64_le};
use crate::crypto::PublicKey;
use vstd::prelude::*;

verus! {

/// An amount of staked currency.
pub type Stake = u64;

/// A participant eligible to propose blocks.
#[derive(Clone, Copy, Debug)]
pub struct Validator {
    pub pub_key: PublicKey,
    pub stake: Stake,
}

/// Byte-lexicographic order: `a` sorts strictly before `b`.
pub open spec fn lex_lt(a: Seq<u8>, b: Seq<u8>) -> bool
    decreases a.len(),
{
    if a.len() == 0 || b.len() == 0 {
        a.len() < b.len()
    } else if a[0] != b[0] {
        a[0] < b[0]
    } else {
        lex_lt(a.drop_first(), b.drop_first())
    }
}

/// Strictly ascending in byte-lexicographic order.
pub open spec fn strictly_sorted(s: Seq<Seq<u8>>) -> bool {
    forall|i: int, j: int| 0 <= i < j < s.len() ==> lex_lt(#[trigger] s[i], #[trigger] s[j])
}

/// `s` lists exactly the keys of `m`.
pub open spec fn lists_keys(s: Seq<Seq<u8>>, m: Map<Seq<u8>, u64>) -> bool {
    forall|k: Seq<u8>| #[trigger] s.contains(k) <==> m.contains_key(k)
}

/// The validators' keys in ascending order.
pub open spec fn proposer_order(m: Map<Seq<u8>, u64>) -> Seq<Seq<u8>> {
    choose|s: Seq<Seq<u8>>| strictly_sorted(s) && lists_keys(s, m)
}

/// The round number taken from a block hash: its first eight bytes, read
/// little-endian.
pub open spec fn round_seed(h: Seq<u8>) -> nat {
    le_value(h.subrange(0, 8))
}

/// The proposer selected for the round after the block with hash `h`.
pub open spec fn selected_proposer(m: Map<Seq<u8>, u64>, h: Seq<u8>) -> Option<Seq<u8>> {
    let order = proposer_order(m);
    if order.len() == 0 {
        None
    } else {
        Some(order[(round_seed(h) % order.len()) as int])
    }
}

pub proof fn lemma_lex_irreflexive(a: Seq<u8>)
    ensures
        !lex_lt(a, a),
    decreases a.len(),
{
    if a.len() > 0 {
        lemma_lex_irreflexive(a.drop_first());
    }
}

pub proof fn lemma_lex_asymmetric(a: Seq<u8>, b: Seq<u8>)
    ensures
        !(lex_lt(a, b) && lex_lt(b, a)),
    decreases a.len(),
{
    if a.len() > 0 && b.len() > 0 {
        lemma_lex_asymmetric(a.drop_first(), b.drop_first());
    }
}

pub proof fn lemma_lex_transitive(a: Seq<u8>, b: Seq<u8>, c: Seq<u8>)
    requires
        lex_lt(a, b),
        lex_lt(b, c),
    ensures
        lex_lt(a, c),
    decreases a.len(),
{
    if a.len() > 0 && b.len() > 0 && c.len() > 0 && a[0] == b[0] && b[0] == c[0] {
        lemma_lex_transitive(a.drop_first(), b.drop_first(), c.drop_first());
    }
}

pub proof fn lemma_lex_total(a: Seq<u8>, b: Seq<u8>)
    requires
        a.len() == b.len(),
        a != b,
    ensures
        lex_lt(a, b) || lex_lt(b, a),
    decreases a.len(),
{
    if a.len() == 0 {
        assert(a =~= b);
    } else if a[0] == b[0] {
        if a.drop_first() == b.drop_first() {
            assert(a =~= seq![a[0]] + a.drop_first());
            assert(b =~= seq![b[0]] + b.drop_first());
        }
        lemma_lex_total(a.drop_first(), b.drop_first());
    }
}

/// Two strictly sorted lists of the same keys are the same list: the order
/// of proposers depends on the set of keys alone, not on how it was built.
pub proof fn lemma_sorted_unique(s: Seq<Seq<u8>>, t: Seq<Seq<u8>>)
    requires
        strictly_sorted(s),
        strictly_sorted(t),
        forall|k: Seq<u8>| s.contains(k) <==> t.contains(k),
    ensures
        s == t,
    decreases s.len(),
{
    if s.len() == 0 {
        if t.len() > 0 {
            assert(t.contains(t[0]));
        }
        assert(s =~= t);
    } else if t.len() == 0 {
        assert(s.contains(s[0]));
    } else {
        assert(s.contains(s[0]));
        assert(t.contains(t[0]));
        let j = choose|j: int| 0 <= j < t.len() && t[j] == s[0];
        let k = choose|k: int| 0 <= k < s.len() && s[k] == t[0];
        if j > 0 {
            assert(lex_lt(t[0], t[j]));
            if k > 0 {
                assert(lex_lt(s[0], s[k]));
                lemma_lex_asymmetric(s[0], s[k]);
            } else {
                lemma_lex_irreflexive(s[0]);
            }
        }
        assert(s[0] == t[0]);
        let s1 = s.drop_first();
        let t1 = t.drop_first();
        assert forall|x: Seq<u8>| s1.contains(x) <==> t1.contains(x) by {
            if s1.contains(x) {
                let a = choose|a: int| 0 <= a < s1.len() && s1[a] == x;
                assert(s.contains(x));
                assert(lex_lt(s[0], s[a + 1]));
                lemma_lex_irreflexive(s[0]);
                let b = choose|b: int| 0 <= b < t.len() && t[b] == x;
                assert(b != 0);
                assert(t1[b - 1] == x);
            }
            if t1.contains(x) {
                let a = choose|a: int| 0 <= a < t1.len() && t1[a] == x;
                assert(t.contains(x));
                assert(lex_lt(t[0], t[a + 1]));
                lemma_lex_irreflexive(t[0]);
                let b = choose|b: int| 0 <= b < s.len() && s[b] == x;
                assert(b != 0);
                assert(s1[b - 1] == x);
            }
        }
        lemma_sorted_unique(s1, t1);
        assert(s =~= seq![s[0]] + s1);
        assert(t =~= seq![t[0]] + t1);
    }
}

/// Whether `a` sorts strictly before `b`.
fn lex_less(a: &PublicKey, b: &PublicKey) -> (r: bool)
    ensures
        r == lex_lt(a@, b@),
{
    let mut i: usize = 0;
    assert(a@.skip(0) =~= a@);
    assert(b@.skip(0) =~= b@);
    while i < 32
        invariant
            i <= 32,
            lex_lt(a@, b@) == lex_lt(a@.skip(i as int), b@.skip(i as int)),
        decreases 32 - i,
    {
        assert(a@.skip(i as int)[0] == a@[i as int]);
        assert(b@.skip(i as int)[0] == b@[i as int]);
        assert(a@.skip(i as int).drop_first() =~= a@.skip(i + 1));
        assert(b@.skip(i as int).drop_first() =~= b@.skip(i + 1));
        if a[i] < b[i] {
            return true;
        }
        if a[i] > b[i] {
            return false;
        }
        i = i + 1;
    }
    false
}

/// The active validators, keyed by public key.
pub struct ValidatorSet {
    validators: Vec<Validator>,
    stakes: Ghost<Map<Seq<u8>, u64>>,
}

pub open spec fn keys_of(vs: Seq<Validator>) -> Seq<Seq<u8>> {
    vs.map_values(|v: Validator| v.pub_key@)
}

impl View for ValidatorSet {
    type V = Map<Seq<u8>, u64>;

    closed spec fn view(&self) -> Map<Seq<u8>, u64> {
        self.stakes@
    }
}

impl ValidatorSet {
    /// The stored keys, in the order the set keeps them.
    pub closed spec fn order(&self) -> Seq<Seq<u8>> {
        keys_of(self.validators@)
    }

    /// Validators are sorted by key, keys are unique, and the map holds
    /// exactly their stakes.
    pub closed spec fn wf(&self) -> bool {
        let keys = keys_of(self.validators@);
        &&& strictly_sorted(keys)
        &&& lists_keys(keys, self.stakes@)
        &&& forall|i: int|
            0 <= i < self.validators@.len() ==> self.stakes@[#[trigger] keys[i]]
                == self.validators@[i].stake
    }

    /// An empty set.
    pub fn new() -> (r: Self)
        ensures
            r.wf(),
            r@ == Map::<Seq<u8>, u64>::empty(),
    {
        ValidatorSet { validators: Vec::new(), stakes: Ghost(Map::empty()) }
    }

    /// The number of validators.
    pub fn len(&self) -> (r: usize)
        requires
            self.wf(),
        ensures
            r == proposer_order(self@).len(),
    {
        proof {
            self.lemma_order();
        }
        self.validators.len()
    }

    /// The stored keys are the proposer order of the map.
    proof fn lemma_order(&self)
        requires
            self.wf(),
        ensures
            keys_of(self.validators@) == proposer_order(self@),
    {
        let keys = keys_of(self.validators@);
        assert(strictly_sorted(keys) && lists_keys(keys, self@));
        let o = proposer_order(self@);
        assert(strictly_sorted(o) && lists_keys(o, self@));
        lemma_sorted_unique(keys, o);
    }

    /// Adds a validator, or replaces the stake of one with the same key.
    pub fn add_validator(&mut self, validator: Validator)
        requires
            old(self).wf(),
        ensures
            final(self).wf(),
            final(self)@ == old(self)@.insert(validator.pub_key@, validator.stake),
    {
        let ghost keys = keys_of(self.validators@);
        let ghost k = validator.pub_key@;
        let n = self.validators.len();
        let mut i: usize = 0;
        let mut scanning = true;
        while scanning && i < n
            invariant
                n == self.validators@.len(),
                keys == keys_of(self.validators@),
                k == validator.pub_key@,
                i <= n,
                forall|a: int| 0 <= a < i ==> lex_lt(#[trigger] keys[a], k),
                !scanning ==> i < n && !lex_lt(keys[i as int], k),
            decreases n - i + (if scanning { 1int } else { 0int }),
        {
            assert(keys[i as int] == self.validators@[i as int].pub_key@);
            if lex_less(&self.validators[i].pub_key, &validator.pub_key) {
                i = i + 1;
            } else {
                scanning = false;
            }
        }
        let ghost new_map = self.stakes@.insert(k, validator.stake);
        if i < n && eq32(&self.validators[i].pub_key, &validator.pub_key) {
            self.validators[i] = validator;
            self.stakes = Ghost(new_map);
            proof {
                let nk = keys_of(self.validators@);
                assert(nk =~= keys);
                assert forall|x: Seq<u8>| #[trigger] nk.contains(x) <==> new_map.contains_key(x) by {
                    if x == k {
                        assert(nk[i as int] == k);
                    }
                }
                assert forall|a: int| 0 <= a < self.validators@.len() implies self.stakes@[
                    #[trigger] nk[a]] == self.validators@[a].stake by {
                    if a != i {
                        assert(nk[a] != k) by {
                            lemma_lex_irreflexive(k);
                            if a < i {
                                assert(lex_lt(nk[a], nk[i as int]));
                            } else {
                                assert(lex_lt(nk[i as int], nk[a]));
                            }
                        }
                    }
                }
            }
        } else {
            proof {
                if i < n {
                    assert(!lex_lt(keys[i as int], k));
                    assert(keys[i as int] != k);
                    lemma_lex_total(keys[i as int], k);
                }
            }
            self.validators.insert(i, validator);
            self.stakes = Ghost(new_map);
            proof {
                let nk = keys_of(self.validators@);
                assert(nk =~= keys.insert(i as int, k));
                assert forall|a: int, b: int| 0 <= a < b < nk.len() implies lex_lt(
                    #[trigger] nk[a],
                    #[trigger] nk[b],
                ) by {
                    if b < i {
                        assert(nk[a] == keys[a] && nk[b] == keys[b]);
                    } else if b == i {
                        assert(nk[a] == keys[a]);
                    } else if a < i {
                        assert(lex_lt(keys[a], k));
                        assert(lex_lt(k, keys[i as int]));
                        if b - 1 > i {
                            lemma_lex_transitive(k, keys[i as int], keys[b - 1]);
                        }
                        lemma_lex_transitive(keys[a], k, keys[b - 1]);
                    } else if a == i {
                        if b - 1 > i {
                            lemma_lex_transitive(k, keys[i as int], keys[b - 1]);
                        }
                    } else {
                        assert(nk[a] == keys[a - 1] && nk[b] == keys[b - 1]);
                    }
                }
                assert forall|x: Seq<u8>| #[trigger] nk.contains(x) <==> new_map.contains_key(x) by {
                    if x == k {
                        assert(nk[i as int] == k);
                    }
                    if nk.contains(x) && x != k {
                        let a = choose|a: int| 0 <= a < nk.len() && nk[a] == x;
                        if a < i {
                            assert(keys[a] == x);
                        } else {
                            assert(keys[a - 1] == x);
                        }
                        assert(keys.contains(x));
                    }
                    if old(self).stakes@.contains_key(x) && x != k {
                        assert(keys.contains(x));
                        let a = choose|a: int| 0 <= a < keys.len() && keys[a] == x;
                        if a < i {
                            assert(nk[a] == x);
                        } else {
                            assert(nk[a + 1] == x);
                        }
                    }
                }
                assert forall|a: int| 0 <= a < self.validators@.len() implies self.stakes@[
                    #[trigger] nk[a]] == self.validators@[a].stake by {
                    if a < i {
                        assert(nk[a] == keys[a]);
                        lemma_lex_irreflexive(k);
                    } else if a > i {
                        assert(nk[a] == keys[a - 1]);
                        assert(lex_lt(nk[i as int], nk[a]));
                        lemma_lex_irreflexive(k);
                    }
                }
            }
        }
    }

    /// The proposer for the round after the block with hash
    /// `previous_block_hash`; `None` when there are no validators.
    pub fn select_proposer(&self, previous_block_hash: crate::crypto::Hash) -> (r: Option<PublicKey>)
        requires
            self.wf(),
        ensures
            match r {
                Some(k) => selected_proposer(self@, previous_block_hash@) == Some(k@),
                None => selected_proposer(self@, previous_block_hash@) is None,
            },
    {
        proof {
            self.lemma_order();
        }
        let n = self.validators.len();
        if n == 0 {
            return None;
        }
        let seed = read_u64_le(&previous_block_hash, 0);
        let index = (seed % (n as u64)) as usize;
        assert(keys_of(self.validators@)[index as int] == self.validators@[index as int].pub_key@);
        Some(self.validators[index].pub_key)
    }
}

/// Two nodes whose validator sets hold the same keys and stakes, asked
/// about the same latest hash, select the same proposer, however each set
/// was built.
pub proof fn lemma_proposer_determinism(
    a: &ValidatorSet,
    b: &ValidatorSet,
    ha: crate::crypto::Hash,
    hb: crate::crypto::Hash,
)
    requires
        a.wf(),
        b.wf(),
        a@ == b@,
        ha@ == hb@,
    ensures
        selected_proposer(a@, ha@) == selected_proposer(b@, hb@),
        a.order() == b.order(),
{
    a.lemma_order();
    b.lemma_order();
}

} // verus!
