//! Reading ledger values back from their canonical encoding, as received
//! on the gossip topics. Every value read is exactly the one whose encoding
//! the bytes hold.
use crate::bytes::{le_bytes, le_value, lemma_le_bytes_len, lemma_le_round_trip, pow256, read_u64_le, u64_le};
use crate::ledger::{
    concat_map, enc_block, enc_bytes, enc_hash_list, enc_link, enc_link_list, enc_object_list,
    enc_state_object, enc_transaction, enc_transaction_list, hashes_view, lemma_concat_map_split, lemma_concat_map_step,
    links_view, objects_view, transactions_view, Block, BlockView, CausalLink, CausalLinkView, StateObject,
    StateObjectView, Transaction, TransactionView,
};
use vstd::prelude::*;

verus! {

/// Why a payload could not be read.
#[derive(Debug, PartialEq, Eq)]
pub enum DecodeError {
    /// The payload ends before the value does.
    Truncated,
    /// Bytes remain after the value.
    TrailingBytes,
}

/// `e` occurs in `b` at `pos`.
pub open spec fn at(b: Seq<u8>, pos: int, e: Seq<u8>) -> bool {
    0 <= pos && pos + e.len() <= b.len() && b.subrange(pos, pos + e.len()) == e
}

/// A count or length that the 8-byte encoding can hold.
pub open spec fn fits_count(n: nat) -> bool {
    n < 0x1_0000_0000_0000_0000
}

pub open spec fn object_shaped(o: StateObjectView) -> bool {
    &&& o.id.len() == 32
    &&& o.owner.len() == 32
    &&& fits_count(o.data.len())
    &&& fits_count(o.validation_logic.len())
}

pub open spec fn link_shaped(l: CausalLinkView) -> bool {
    l.source_so_id.len() == 32 && l.target_so_id.len() == 32
}

/// A transaction value that some [`Transaction`] can have.
pub open spec fn transaction_shaped(t: TransactionView) -> bool {
    &&& t.id.len() == 32
    &&& fits_count(t.inputs.len())
    &&& forall|i: int| 0 <= i < t.inputs.len() ==> (#[trigger] t.inputs[i]).len() == 32
    &&& fits_count(t.outputs.len())
    &&& forall|i: int| 0 <= i < t.outputs.len() ==> object_shaped(#[trigger] t.outputs[i])
    &&& fits_count(t.causal_links.len())
    &&& forall|i: int| 0 <= i < t.causal_links.len() ==> link_shaped(#[trigger] t.causal_links[i])
    &&& t.signature.len() == 64
}

/// A block value that some [`Block`] can have.
pub open spec fn block_shaped(b: BlockView) -> bool {
    &&& b.id.len() == 32
    &&& b.previous_hash.len() == 32
    &&& b.proposer.len() == 32
    &&& fits_count(b.transactions.len())
    &&& forall|i: int|
        0 <= i < b.transactions.len() ==> transaction_shaped(#[trigger] b.transactions[i])
    &&& fits_count(b.vdf_proof.len())
}

pub open spec fn hash_shaped(h: Seq<u8>) -> bool {
    h.len() == 32
}

pub open spec fn hash_list_shaped(v: Seq<Seq<u8>>) -> bool {
    fits_count(v.len()) && forall|i: int| 0 <= i < v.len() ==> hash_shaped(#[trigger] v[i])
}

pub open spec fn object_list_shaped(v: Seq<StateObjectView>) -> bool {
    fits_count(v.len()) && forall|i: int| 0 <= i < v.len() ==> object_shaped(#[trigger] v[i])
}

pub open spec fn link_list_shaped(v: Seq<CausalLinkView>) -> bool {
    fits_count(v.len()) && forall|i: int| 0 <= i < v.len() ==> link_shaped(#[trigger] v[i])
}

pub open spec fn transaction_list_shaped(v: Seq<TransactionView>) -> bool {
    fits_count(v.len()) && forall|i: int| 0 <= i < v.len() ==> transaction_shaped(#[trigger] v[i])
}

pub proof fn lemma_at_split(b: Seq<u8>, pos: int, x: Seq<u8>, y: Seq<u8>)
    requires
        at(b, pos, x + y),
    ensures
        at(b, pos, x),
        at(b, pos + x.len(), y),
{
    assert forall|i: int| 0 <= i < x.len() implies b.subrange(pos, pos + x.len())[i] == x[i] by {
        assert(b.subrange(pos, pos + (x + y).len())[i] == (x + y)[i]);
    }
    assert(b.subrange(pos, pos + x.len()) =~= x);
    assert forall|i: int| 0 <= i < y.len() implies b.subrange(pos + x.len(), pos + x.len() + y.len())[i] == y[i] by {
        assert(b.subrange(pos, pos + (x + y).len())[x.len() + i] == (x + y)[x.len() + i]);
    }
    assert(b.subrange(pos + x.len(), pos + x.len() + y.len()) =~= y);
}

pub proof fn lemma_le_bytes_of_value(s: Seq<u8>)
    ensures
        le_bytes(le_value(s), s.len()) == s,
    decreases s.len(),
{
    if s.len() > 0 {
        let rest = s.drop_first();
        lemma_le_bytes_of_value(rest);
        let x = le_value(rest);
        let b = s[0] as nat;
        assert((b + 256 * x) % 256 == b && (b + 256 * x) / 256 == x) by (nonlinear_arith)
            requires
                b < 256,
        ;
        assert(le_bytes(le_value(s), s.len()) =~= s);
    }
}

/// Reads 32 bytes at `pos`.
fn read_hash(bytes: &[u8], pos: usize) -> (r: Option<crate::crypto::Hash>)
    ensures
        r matches Some(h) ==> pos + 32 <= bytes@.len() && bytes@.subrange(pos as int, pos + 32)
            == h@,
        forall|v: Seq<u8>|
            v.len() == 32 && #[trigger] at(bytes@, pos as int, v) ==> (r matches Some(h) && h@ == v),
{
    let total = bytes.len();
    if bytes.len() < 32 || pos > bytes.len() - 32 {
        return None;
    }
    let mut h = [0u8; 32];
    let mut i: usize = 0;
    while i < 32
        invariant
            total == bytes@.len(),
            i <= 32,
            pos + 32 <= bytes@.len(),
            forall|j: int| 0 <= j < i ==> h@[j] == bytes@[pos + j],
        decreases 32 - i,
    {
        h[i] = bytes[pos + i];
        i = i + 1;
    }
    assert(bytes@.subrange(pos as int, pos + 32) =~= h@);
    Some(h)
}

/// Reads an 8-byte little-endian count at `pos`.
fn read_count(bytes: &[u8], pos: usize) -> (r: Option<u64>)
    ensures
        r matches Some(n) ==> pos + 8 <= bytes@.len() && bytes@.subrange(pos as int, pos + 8)
            == u64_le(n as nat),
        forall|c: nat|
            fits_count(c) && #[trigger] at(bytes@, pos as int, u64_le(c)) ==> r == Some(c as u64),
{
    proof {
        assert forall|c: nat| fits_count(c) && #[trigger] at(bytes@, pos as int, u64_le(c)) implies
            pos + 8 <= bytes@.len() && le_value(bytes@.subrange(pos as int, pos + 8)) == c by {
            lemma_le_bytes_len(c, 8);
            lemma_le_round_trip(c, 8);
            assert(pow256(8) == 0x1_0000_0000_0000_0000) by {
                reveal_with_fuel(pow256, 9);
            }
        }
        lemma_le_bytes_len(0, 8);
    }
    if bytes.len() < 8 || pos > bytes.len() - 8 {
        return None;
    }
    let n = read_u64_le(bytes, pos);
    proof {
        lemma_le_bytes_of_value(bytes@.subrange(pos as int, pos + 8));
    }
    Some(n)
}

/// Reads a length-prefixed byte string at `pos`.
fn read_byte_string(bytes: &[u8], pos: usize) -> (r: Option<(Vec<u8>, usize)>)
    ensures
        r matches Some((v, end)) ==> pos <= end <= bytes@.len() && bytes@.subrange(
            pos as int,
            end as int,
        ) == enc_bytes(v@),
        forall|w: Seq<u8>|
            fits_count(w.len()) && #[trigger] at(bytes@, pos as int, enc_bytes(w)) ==> (r matches Some((v, end))
                && v@ == w && end == pos + enc_bytes(w).len()),
{
    proof {
        assert forall|w: Seq<u8>|
            fits_count(w.len()) && #[trigger] at(bytes@, pos as int, enc_bytes(w)) implies at(
            bytes@,
            pos as int,
            u64_le(w.len()),
        ) && at(bytes@, pos + 8, w) by {
            lemma_le_bytes_len(w.len(), 8);
            lemma_at_split(bytes@, pos as int, u64_le(w.len()), w);
        }
    }
    let total = bytes.len();
    let n = match read_count(bytes, pos) {
        Some(n) => n,
        None => {
            return None;
        },
    };
    let start = pos + 8;
    if n > (bytes.len() - start) as u64 {
        return None;
    }
    let len = n as usize;
    let mut v: Vec<u8> = Vec::new();
    let mut i: usize = 0;
    while i < len
        invariant
            total == bytes@.len(),
            start + len <= bytes@.len(),
            i <= len,
            v@ == bytes@.subrange(start as int, start + i),
        decreases len - i,
    {
        v.push(bytes[start + i]);
        assert(v@ =~= bytes@.subrange(start as int, start + i + 1));
        i = i + 1;
    }
    assert(bytes@.subrange(pos as int, start + len) =~= bytes@.subrange(pos as int, start as int)
        + v@);
    assert(v@.len() == n);
    proof {
        lemma_le_bytes_len(n as nat, 8);
        assert forall|w: Seq<u8>|
            fits_count(w.len()) && #[trigger] at(bytes@, pos as int, enc_bytes(w)) implies v@ == w
            && start + len == pos + enc_bytes(w).len() by {
            assert(at(bytes@, pos as int, u64_le(w.len())));
            assert(w.len() == n);
            assert(at(bytes@, pos + 8, w));
        }
    }
    Some((v, start + len))
}

fn read_state_object(bytes: &[u8], pos: usize) -> (r: Option<(StateObject, usize)>)
    ensures
        r matches Some((so, end)) ==> pos <= end <= bytes@.len() && bytes@.subrange(
            pos as int,
            end as int,
        ) == enc_state_object(so@),
        forall|w: StateObjectView|
            object_shaped(w) && #[trigger] at(bytes@, pos as int, enc_state_object(w)) ==> (r matches Some(
                (so, end),
            ) && so@ == w && end == pos + enc_state_object(w).len()),
{
    proof {
        assert forall|w: StateObjectView|
            object_shaped(w) && #[trigger] at(bytes@, pos as int, enc_state_object(w)) implies {
            &&& at(bytes@, pos as int, w.id)
            &&& at(bytes@, pos + 32, w.owner)
            &&& at(bytes@, pos + 64, enc_bytes(w.data))
            &&& at(bytes@, pos + 64 + enc_bytes(w.data).len(), enc_bytes(w.validation_logic))
            &&& enc_state_object(w).len() == 64 + enc_bytes(w.data).len() + enc_bytes(
                w.validation_logic,
            ).len()
        } by {
            let ebd = enc_bytes(w.data);
            let ebl = enc_bytes(w.validation_logic);
            lemma_at_split(bytes@, pos as int, w.id, w.owner + ebd + ebl);
            lemma_at_split(bytes@, pos + 32, w.owner + ebd, ebl);
            lemma_at_split(bytes@, pos + 32, w.owner, ebd);
        }
    }
    let total = bytes.len();
    if total < 64 || pos > total - 64 {
        return None;
    }
    let id = match read_hash(bytes, pos) {
        Some(h) => h,
        None => {
            return None;
        },
    };
    let owner = match read_hash(bytes, pos + 32) {
        Some(h) => h,
        None => {
            return None;
        },
    };
    let (data, data_end) = match read_byte_string(bytes, pos + 64) {
        Some(x) => x,
        None => {
            return None;
        },
    };
    let (logic, logic_end) = match read_byte_string(bytes, data_end) {
        Some(x) => x,
        None => {
            return None;
        },
    };
    let so = StateObject { id, owner, data, validation_logic: logic };
    assert(bytes@.subrange(pos as int, logic_end as int) =~= bytes@.subrange(pos as int, pos + 32)
        + bytes@.subrange(pos + 32, pos + 64) + bytes@.subrange(pos + 64, data_end as int)
        + bytes@.subrange(data_end as int, logic_end as int));
    assert(bytes@.subrange(pos as int, logic_end as int) =~= enc_state_object(so@));
    Some((so, logic_end))
}

fn read_hash_list(bytes: &[u8], pos: usize) -> (r: Option<(Vec<crate::crypto::Hash>, usize)>)
    ensures
        r matches Some((items, end)) ==> pos <= end <= bytes@.len() && bytes@.subrange(
            pos as int,
            end as int,
        ) == enc_hash_list(hashes_view(items@)),
        forall|v: Seq<Seq<u8>>|
            hash_list_shaped(v) && #[trigger] at(bytes@, pos as int, enc_hash_list(v)) ==> (r matches Some(
                (items, end),
            ) && hashes_view(items@) == v && end == pos + enc_hash_list(v).len()),
{
    let total = bytes.len();
    let ghost f = (|h: Seq<u8>| h);
    proof {
        assert forall|v: Seq<Seq<u8>>|
            hash_list_shaped(v) && #[trigger] at(bytes@, pos as int, enc_hash_list(v)) implies at(
            bytes@,
            pos as int,
            u64_le(v.len()),
        ) && at(bytes@, pos + 8, concat_map(v, f)) by {
            lemma_le_bytes_len(v.len(), 8);
            lemma_at_split(bytes@, pos as int, u64_le(v.len()), concat_map(v, f));
        }
    }
    let n = match read_count(bytes, pos) {
        Some(n) => n,
        None => {
            return None;
        },
    };
    let mut items: Vec<crate::crypto::Hash> = Vec::new();
    let mut cur = pos + 8;
    let mut i: u64 = 0;
    while i < n
        invariant
            total == bytes@.len(),
            pos + 8 <= cur <= bytes@.len(),
            i <= n,
            items@.len() == i,
            f == (|h: Seq<u8>| h),
            bytes@.subrange(pos as int, pos + 8) == u64_le(n as nat),
            bytes@.subrange(pos + 8, cur as int) == concat_map(hashes_view(items@), f),
            forall|v: Seq<Seq<u8>>|
                hash_list_shaped(v) && #[trigger] at(bytes@, pos as int, enc_hash_list(v)) ==> {
                    &&& v.len() == n
                    &&& hashes_view(items@) == v.take(i as int)
                    &&& cur == pos + 8 + concat_map(v.take(i as int), f).len()
                    &&& at(bytes@, pos + 8, concat_map(v, f))
                },
        decreases n - i,
    {
        proof {
            assert forall|v: Seq<Seq<u8>>|
                hash_list_shaped(v) && #[trigger] at(bytes@, pos as int, enc_hash_list(v)) implies hash_shaped(v[i as int])
                && at(bytes@, cur as int, f(v[i as int])) by {
                lemma_concat_map_split(v, f, i as int);
                let a = concat_map(v.take(i as int), f);
                let b = f(v[i as int]);
                lemma_at_split(bytes@, pos + 8, a + b, concat_map(v.skip(i + 1), f));
                lemma_at_split(bytes@, pos + 8, a, b);
            }
        }
        let item = match read_hash(bytes, cur) {
            Some(h) => h,
            None => {
                return None;
            },
        };
        let next = cur + 32;
        let ghost before = items@;
        items.push(item);
        proof {
            let w = hashes_view(items@);
            lemma_concat_map_step(w, f, i as int);
            assert(w.take(i as int) =~= hashes_view(before));
            assert(w.take(i + 1) =~= w);
            assert(bytes@.subrange(pos + 8, next as int) =~= bytes@.subrange(pos + 8, cur as int)
                + bytes@.subrange(cur as int, next as int));
            assert forall|v: Seq<Seq<u8>>|
                hash_list_shaped(v) && #[trigger] at(bytes@, pos as int, enc_hash_list(v)) implies {
                    &&& hashes_view(items@) == v.take(i + 1)
                    &&& next == pos + 8 + concat_map(v.take(i + 1), f).len()
                } by {
                lemma_concat_map_step(v, f, i as int);
                assert(v.take(i + 1) =~= v.take(i as int).push(v[i as int]));
                assert(w =~= hashes_view(before).push(item@));
            }
        }
        cur = next;
        i = i + 1;
    }
    assert(bytes@.subrange(pos as int, cur as int) =~= bytes@.subrange(pos as int, pos + 8)
        + bytes@.subrange(pos + 8, cur as int));
    proof {
        assert forall|v: Seq<Seq<u8>>|
            hash_list_shaped(v) && #[trigger] at(bytes@, pos as int, enc_hash_list(v)) implies hashes_view(items@) == v
            && cur == pos + enc_hash_list(v).len() by {
            assert(v.take(i as int) =~= v);
            lemma_le_bytes_len(v.len(), 8);
        }
    }
    Some((items, cur))
}

fn read_object_list(bytes: &[u8], pos: usize) -> (r: Option<(Vec<StateObject>, usize)>)
    ensures
        r matches Some((items, end)) ==> pos <= end <= bytes@.len() && bytes@.subrange(
            pos as int,
            end as int,
        ) == enc_object_list(objects_view(items@)),
        forall|v: Seq<StateObjectView>|
            object_list_shaped(v) && #[trigger] at(bytes@, pos as int, enc_object_list(v)) ==> (r matches Some(
                (items, end),
            ) && objects_view(items@) == v && end == pos + enc_object_list(v).len()),
{
    let total = bytes.len();
    let ghost f = (|o: StateObjectView| enc_state_object(o));
    proof {
        assert forall|v: Seq<StateObjectView>|
            object_list_shaped(v) && #[trigger] at(bytes@, pos as int, enc_object_list(v)) implies at(
            bytes@,
            pos as int,
            u64_le(v.len()),
        ) && at(bytes@, pos + 8, concat_map(v, f)) by {
            lemma_le_bytes_len(v.len(), 8);
            lemma_at_split(bytes@, pos as int, u64_le(v.len()), concat_map(v, f));
        }
    }
    let n = match read_count(bytes, pos) {
        Some(n) => n,
        None => {
            return None;
        },
    };
    let mut items: Vec<StateObject> = Vec::new();
    let mut cur = pos + 8;
    let mut i: u64 = 0;
    while i < n
        invariant
            total == bytes@.len(),
            pos + 8 <= cur <= bytes@.len(),
            i <= n,
            items@.len() == i,
            f == (|o: StateObjectView| enc_state_object(o)),
            bytes@.subrange(pos as int, pos + 8) == u64_le(n as nat),
            bytes@.subrange(pos + 8, cur as int) == concat_map(objects_view(items@), f),
            forall|v: Seq<StateObjectView>|
                object_list_shaped(v) && #[trigger] at(bytes@, pos as int, enc_object_list(v)) ==> {
                    &&& v.len() == n
                    &&& objects_view(items@) == v.take(i as int)
                    &&& cur == pos + 8 + concat_map(v.take(i as int), f).len()
                    &&& at(bytes@, pos + 8, concat_map(v, f))
                },
        decreases n - i,
    {
        proof {
            assert forall|v: Seq<StateObjectView>|
                object_list_shaped(v) && #[trigger] at(bytes@, pos as int, enc_object_list(v)) implies object_shaped(v[i as int])
                && at(bytes@, cur as int, f(v[i as int])) by {
                lemma_concat_map_split(v, f, i as int);
                let a = concat_map(v.take(i as int), f);
                let b = f(v[i as int]);
                lemma_at_split(bytes@, pos + 8, a + b, concat_map(v.skip(i + 1), f));
                lemma_at_split(bytes@, pos + 8, a, b);
            }
        }
        let (item, next) = match read_state_object(bytes, cur) {
            Some(x) => x,
            None => {
                return None;
            },
        };
        let ghost before = items@;
        items.push(item);
        proof {
            let w = objects_view(items@);
            lemma_concat_map_step(w, f, i as int);
            assert(w.take(i as int) =~= objects_view(before));
            assert(w.take(i + 1) =~= w);
            assert(bytes@.subrange(pos + 8, next as int) =~= bytes@.subrange(pos + 8, cur as int)
                + bytes@.subrange(cur as int, next as int));
            assert forall|v: Seq<StateObjectView>|
                object_list_shaped(v) && #[trigger] at(bytes@, pos as int, enc_object_list(v)) implies {
                    &&& objects_view(items@) == v.take(i + 1)
                    &&& next == pos + 8 + concat_map(v.take(i + 1), f).len()
                } by {
                lemma_concat_map_step(v, f, i as int);
                assert(v.take(i + 1) =~= v.take(i as int).push(v[i as int]));
                assert(w =~= objects_view(before).push(item@));
            }
        }
        cur = next;
        i = i + 1;
    }
    assert(bytes@.subrange(pos as int, cur as int) =~= bytes@.subrange(pos as int, pos + 8)
        + bytes@.subrange(pos + 8, cur as int));
    proof {
        assert forall|v: Seq<StateObjectView>|
            object_list_shaped(v) && #[trigger] at(bytes@, pos as int, enc_object_list(v)) implies objects_view(items@) == v
            && cur == pos + enc_object_list(v).len() by {
            assert(v.take(i as int) =~= v);
            lemma_le_bytes_len(v.len(), 8);
        }
    }
    Some((items, cur))
}

fn read_link_list(bytes: &[u8], pos: usize) -> (r: Option<(Vec<CausalLink>, usize)>)
    ensures
        r matches Some((items, end)) ==> pos <= end <= bytes@.len() && bytes@.subrange(
            pos as int,
            end as int,
        ) == enc_link_list(links_view(items@)),
        forall|v: Seq<CausalLinkView>|
            link_list_shaped(v) && #[trigger] at(bytes@, pos as int, enc_link_list(v)) ==> (r matches Some(
                (items, end),
            ) && links_view(items@) == v && end == pos + enc_link_list(v).len()),
{
    let total = bytes.len();
    let ghost f = (|l: CausalLinkView| enc_link(l));
    proof {
        assert forall|v: Seq<CausalLinkView>|
            link_list_shaped(v) && #[trigger] at(bytes@, pos as int, enc_link_list(v)) implies at(
            bytes@,
            pos as int,
            u64_le(v.len()),
        ) && at(bytes@, pos + 8, concat_map(v, f)) by {
            lemma_le_bytes_len(v.len(), 8);
            lemma_at_split(bytes@, pos as int, u64_le(v.len()), concat_map(v, f));
        }
    }
    let n = match read_count(bytes, pos) {
        Some(n) => n,
        None => {
            return None;
        },
    };
    let mut items: Vec<CausalLink> = Vec::new();
    let mut cur = pos + 8;
    let mut i: u64 = 0;
    while i < n
        invariant
            total == bytes@.len(),
            pos + 8 <= cur <= bytes@.len(),
            i <= n,
            items@.len() == i,
            f == (|l: CausalLinkView| enc_link(l)),
            bytes@.subrange(pos as int, pos + 8) == u64_le(n as nat),
            bytes@.subrange(pos + 8, cur as int) == concat_map(links_view(items@), f),
            forall|v: Seq<CausalLinkView>|
                link_list_shaped(v) && #[trigger] at(bytes@, pos as int, enc_link_list(v)) ==> {
                    &&& v.len() == n
                    &&& links_view(items@) == v.take(i as int)
                    &&& cur == pos + 8 + concat_map(v.take(i as int), f).len()
                    &&& at(bytes@, pos + 8, concat_map(v, f))
                },
        decreases n - i,
    {
        proof {
            assert forall|v: Seq<CausalLinkView>|
                link_list_shaped(v) && #[trigger] at(bytes@, pos as int, enc_link_list(v)) implies link_shaped(v[i as int])
                && at(bytes@, cur as int, f(v[i as int])) by {
                lemma_concat_map_split(v, f, i as int);
                let a = concat_map(v.take(i as int), f);
                let b = f(v[i as int]);
                lemma_at_split(bytes@, pos + 8, a + b, concat_map(v.skip(i + 1), f));
                lemma_at_split(bytes@, pos + 8, a, b);
            }
        }
        proof {
            assert forall|v: Seq<CausalLinkView>|
                link_list_shaped(v) && #[trigger] at(bytes@, pos as int, enc_link_list(v)) implies at(
                bytes@,
                cur as int,
                v[i as int].source_so_id,
            ) && at(bytes@, cur + 32, v[i as int].target_so_id) by {
                lemma_at_split(bytes@, cur as int, v[i as int].source_so_id, v[i as int].target_so_id);
            }
        }
        let source = match read_hash(bytes, cur) {
            Some(h) => h,
            None => {
                return None;
            },
        };
        let target = match read_hash(bytes, cur + 32) {
            Some(h) => h,
            None => {
                return None;
            },
        };
        let item = CausalLink { source_so_id: source, target_so_id: target };
        let next = cur + 64;
        assert(bytes@.subrange(cur as int, next as int) =~= bytes@.subrange(cur as int, cur + 32)
            + bytes@.subrange(cur + 32, cur + 64));
        let ghost before = items@;
        items.push(item);
        proof {
            let w = links_view(items@);
            lemma_concat_map_step(w, f, i as int);
            assert(w.take(i as int) =~= links_view(before));
            assert(w.take(i + 1) =~= w);
            assert(bytes@.subrange(pos + 8, next as int) =~= bytes@.subrange(pos + 8, cur as int)
                + bytes@.subrange(cur as int, next as int));
            assert forall|v: Seq<CausalLinkView>|
                link_list_shaped(v) && #[trigger] at(bytes@, pos as int, enc_link_list(v)) implies {
                    &&& links_view(items@) == v.take(i + 1)
                    &&& next == pos + 8 + concat_map(v.take(i + 1), f).len()
                } by {
                lemma_concat_map_step(v, f, i as int);
                assert(v.take(i + 1) =~= v.take(i as int).push(v[i as int]));
                assert(w =~= links_view(before).push(item@));
            }
        }
        cur = next;
        i = i + 1;
    }
    assert(bytes@.subrange(pos as int, cur as int) =~= bytes@.subrange(pos as int, pos + 8)
        + bytes@.subrange(pos + 8, cur as int));
    proof {
        assert forall|v: Seq<CausalLinkView>|
            link_list_shaped(v) && #[trigger] at(bytes@, pos as int, enc_link_list(v)) implies links_view(items@) == v
            && cur == pos + enc_link_list(v).len() by {
            assert(v.take(i as int) =~= v);
            lemma_le_bytes_len(v.len(), 8);
        }
    }
    Some((items, cur))
}

fn read_signature(bytes: &[u8], pos: usize) -> (r: Option<crate::crypto::Signature>)
    ensures
        r matches Some(s) ==> pos + 64 <= bytes@.len() && bytes@.subrange(pos as int, pos + 64)
            == s@,
        forall|v: Seq<u8>|
            v.len() == 64 && #[trigger] at(bytes@, pos as int, v) ==> (r matches Some(s) && s@ == v),
{
    let total = bytes.len();
    if bytes.len() < 64 || pos > bytes.len() - 64 {
        return None;
    }
    let mut s = [0u8; 64];
    let mut i: usize = 0;
    while i < 64
        invariant
            total == bytes@.len(),
            i <= 64,
            pos + 64 <= bytes@.len(),
            forall|j: int| 0 <= j < i ==> s@[j] == bytes@[pos + j],
        decreases 64 - i,
    {
        s[i] = bytes[pos + i];
        i = i + 1;
    }
    assert(bytes@.subrange(pos as int, pos + 64) =~= s@);
    Some(s)
}

fn read_transaction(bytes: &[u8], pos: usize) -> (r: Option<(Transaction, usize)>)
    ensures
        r matches Some((tx, end)) ==> pos <= end <= bytes@.len() && bytes@.subrange(
            pos as int,
            end as int,
        ) == enc_transaction(tx@),
        forall|w: TransactionView|
            transaction_shaped(w) && #[trigger] at(bytes@, pos as int, enc_transaction(w)) ==> (r matches Some(
                (tx, end),
            ) && tx@ == w && end == pos + enc_transaction(w).len()),
{
    proof {
        assert forall|w: TransactionView|
            transaction_shaped(w) && #[trigger] at(bytes@, pos as int, enc_transaction(w)) implies {
            let ehl = enc_hash_list(w.inputs);
            let eol = enc_object_list(w.outputs);
            let ell = enc_link_list(w.causal_links);
            &&& at(bytes@, pos as int, w.id)
            &&& at(bytes@, pos + 32, ehl)
            &&& at(bytes@, pos + 32 + ehl.len(), eol)
            &&& at(bytes@, pos + 32 + ehl.len() + eol.len(), ell)
            &&& at(bytes@, pos + 32 + ehl.len() + eol.len() + ell.len(), w.signature)
            &&& enc_transaction(w).len() == 32 + ehl.len() + eol.len() + ell.len() + 64
            &&& enc_transaction(w).len() >= 120
            &&& hash_list_shaped(w.inputs)
            &&& object_list_shaped(w.outputs)
            &&& link_list_shaped(w.causal_links)
        } by {
            let ehl = enc_hash_list(w.inputs);
            let eol = enc_object_list(w.outputs);
            let ell = enc_link_list(w.causal_links);
            let content = crate::ledger::transaction_content(w.inputs, w.outputs, w.causal_links);
            lemma_le_bytes_len(w.inputs.len(), 8);
            lemma_le_bytes_len(w.outputs.len(), 8);
            lemma_le_bytes_len(w.causal_links.len(), 8);
            lemma_at_split(bytes@, pos as int, w.id + content, w.signature);
            lemma_at_split(bytes@, pos as int, w.id, content);
            lemma_at_split(bytes@, pos + 32, ehl + eol, ell);
            lemma_at_split(bytes@, pos + 32, ehl, eol);
        }
    }
    let total = bytes.len();
    if total < 120 || pos > total - 120 {
        return None;
    }
    let id = match read_hash(bytes, pos) {
        Some(h) => h,
        None => {
            return None;
        },
    };
    let (inputs, inputs_end) = match read_hash_list(bytes, pos + 32) {
        Some(x) => x,
        None => {
            return None;
        },
    };
    let (outputs, outputs_end) = match read_object_list(bytes, inputs_end) {
        Some(x) => x,
        None => {
            return None;
        },
    };
    let (causal_links, links_end) = match read_link_list(bytes, outputs_end) {
        Some(x) => x,
        None => {
            return None;
        },
    };
    let signature = match read_signature(bytes, links_end) {
        Some(s) => s,
        None => {
            return None;
        },
    };
    let tx = Transaction { id, inputs, outputs, causal_links, signature };
    assert(bytes@.subrange(pos as int, links_end + 64) =~= bytes@.subrange(pos as int, pos + 32)
        + bytes@.subrange(pos + 32, inputs_end as int) + bytes@.subrange(inputs_end as int, outputs_end as int)
        + bytes@.subrange(outputs_end as int, links_end as int) + bytes@.subrange(links_end as int, links_end + 64));
    assert(bytes@.subrange(pos as int, links_end + 64) =~= enc_transaction(tx@));
    Some((tx, links_end + 64))
}

fn read_transaction_list(bytes: &[u8], pos: usize) -> (r: Option<(Vec<Transaction>, usize)>)
    ensures
        r matches Some((items, end)) ==> pos <= end <= bytes@.len() && bytes@.subrange(
            pos as int,
            end as int,
        ) == enc_transaction_list(transactions_view(items@)),
        forall|v: Seq<TransactionView>|
            transaction_list_shaped(v) && #[trigger] at(bytes@, pos as int, enc_transaction_list(v)) ==> (r matches Some(
                (items, end),
            ) && transactions_view(items@) == v && end == pos + enc_transaction_list(v).len()),
{
    let total = bytes.len();
    let ghost f = (|t: TransactionView| enc_transaction(t));
    proof {
        assert forall|v: Seq<TransactionView>|
            transaction_list_shaped(v) && #[trigger] at(bytes@, pos as int, enc_transaction_list(v)) implies at(
            bytes@,
            pos as int,
            u64_le(v.len()),
        ) && at(bytes@, pos + 8, concat_map(v, f)) by {
            lemma_le_bytes_len(v.len(), 8);
            lemma_at_split(bytes@, pos as int, u64_le(v.len()), concat_map(v, f));
        }
    }
    let n = match read_count(bytes, pos) {
        Some(n) => n,
        None => {
            return None;
        },
    };
    let mut items: Vec<Transaction> = Vec::new();
    let mut cur = pos + 8;
    let mut i: u64 = 0;
    while i < n
        invariant
            total == bytes@.len(),
            pos + 8 <= cur <= bytes@.len(),
            i <= n,
            items@.len() == i,
            f == (|t: TransactionView| enc_transaction(t)),
            bytes@.subrange(pos as int, pos + 8) == u64_le(n as nat),
            bytes@.subrange(pos + 8, cur as int) == concat_map(transactions_view(items@), f),
            forall|v: Seq<TransactionView>|
                transaction_list_shaped(v) && #[trigger] at(bytes@, pos as int, enc_transaction_list(v)) ==> {
                    &&& v.len() == n
                    &&& transactions_view(items@) == v.take(i as int)
                    &&& cur == pos + 8 + concat_map(v.take(i as int), f).len()
                    &&& at(bytes@, pos + 8, concat_map(v, f))
                },
        decreases n - i,
    {
        proof {
            assert forall|v: Seq<TransactionView>|
                transaction_list_shaped(v) && #[trigger] at(bytes@, pos as int, enc_transaction_list(v)) implies transaction_shaped(v[i as int])
                && at(bytes@, cur as int, f(v[i as int])) by {
                lemma_concat_map_split(v, f, i as int);
                let a = concat_map(v.take(i as int), f);
                let b = f(v[i as int]);
                lemma_at_split(bytes@, pos + 8, a + b, concat_map(v.skip(i + 1), f));
                lemma_at_split(bytes@, pos + 8, a, b);
            }
        }
        let (item, next) = match read_transaction(bytes, cur) {
            Some(x) => x,
            None => {
                return None;
            },
        };
        let ghost before = items@;
        items.push(item);
        proof {
            let w = transactions_view(items@);
            lemma_concat_map_step(w, f, i as int);
            assert(w.take(i as int) =~= transactions_view(before));
            assert(w.take(i + 1) =~= w);
            assert(bytes@.subrange(pos + 8, next as int) =~= bytes@.subrange(pos + 8, cur as int)
                + bytes@.subrange(cur as int, next as int));
            assert forall|v: Seq<TransactionView>|
                transaction_list_shaped(v) && #[trigger] at(bytes@, pos as int, enc_transaction_list(v)) implies {
                    &&& transactions_view(items@) == v.take(i + 1)
                    &&& next == pos + 8 + concat_map(v.take(i + 1), f).len()
                } by {
                lemma_concat_map_step(v, f, i as int);
                assert(v.take(i + 1) =~= v.take(i as int).push(v[i as int]));
                assert(w =~= transactions_view(before).push(item@));
            }
        }
        cur = next;
        i = i + 1;
    }
    assert(bytes@.subrange(pos as int, cur as int) =~= bytes@.subrange(pos as int, pos + 8)
        + bytes@.subrange(pos + 8, cur as int));
    proof {
        assert forall|v: Seq<TransactionView>|
            transaction_list_shaped(v) && #[trigger] at(bytes@, pos as int, enc_transaction_list(v)) implies transactions_view(items@) == v
            && cur == pos + enc_transaction_list(v).len() by {
            assert(v.take(i as int) =~= v);
            lemma_le_bytes_len(v.len(), 8);
        }
    }
    Some((items, cur))
}

/// Reads a whole transaction from a `transactions` payload.
pub fn decode_transaction(bytes: &[u8]) -> (r: Result<Transaction, DecodeError>)
    ensures
        r matches Ok(tx) ==> enc_transaction(tx@) == bytes@,
        forall|w: TransactionView|
            transaction_shaped(w) && #[trigger] enc_transaction(w) == bytes@ ==> (r matches Ok(tx)
                && tx@ == w),
{
    proof {
        assert forall|w: TransactionView|
            transaction_shaped(w) && #[trigger] enc_transaction(w) == bytes@ implies at(
            bytes@,
            0,
            enc_transaction(w),
        ) by {
            assert(bytes@.subrange(0, bytes@.len() as int) =~= bytes@);
        }
    }
    match read_transaction(bytes, 0) {
        None => Err(DecodeError::Truncated),
        Some((tx, end)) => {
            if end != bytes.len() {
                return Err(DecodeError::TrailingBytes);
            }
            assert(bytes@.subrange(0, end as int) =~= bytes@);
            Ok(tx)
        },
    }
}

/// Reads a whole block from a `blocks` payload.
pub fn decode_block(bytes: &[u8]) -> (r: Result<Block, DecodeError>)
    ensures
        r matches Ok(b) ==> enc_block(b@) == bytes@,
        forall|w: BlockView|
            block_shaped(w) && #[trigger] enc_block(w) == bytes@ ==> (r matches Ok(b) && b@ == w),
{
    proof {
        assert forall|w: BlockView| block_shaped(w) && #[trigger] enc_block(w) == bytes@ implies {
            let etl = enc_transaction_list(w.transactions);
            let ebv = enc_bytes(w.vdf_proof);
            &&& at(bytes@, 0, w.id)
            &&& at(bytes@, 32, w.previous_hash)
            &&& at(bytes@, 64, w.proposer)
            &&& at(bytes@, 96, etl)
            &&& at(bytes@, (96 + etl.len()) as int, ebv)
            &&& bytes@.len() == 96 + etl.len() + ebv.len()
            &&& transaction_list_shaped(w.transactions)
        } by {
            let etl = enc_transaction_list(w.transactions);
            let ebv = enc_bytes(w.vdf_proof);
            let content = crate::ledger::block_content(
                w.previous_hash,
                w.proposer,
                w.transactions,
                w.vdf_proof,
            );
            assert(bytes@.subrange(0, bytes@.len() as int) =~= bytes@);
            lemma_at_split(bytes@, 0, w.id, content);
            lemma_at_split(bytes@, 32, w.previous_hash + w.proposer + etl, ebv);
            lemma_at_split(bytes@, 32, w.previous_hash + w.proposer, etl);
            lemma_at_split(bytes@, 32, w.previous_hash, w.proposer);
        }
    }
    let id = match read_hash(bytes, 0) {
        Some(h) => h,
        None => {
            return Err(DecodeError::Truncated);
        },
    };
    let previous_hash = match read_hash(bytes, 32) {
        Some(h) => h,
        None => {
            return Err(DecodeError::Truncated);
        },
    };
    let proposer = match read_hash(bytes, 64) {
        Some(h) => h,
        None => {
            return Err(DecodeError::Truncated);
        },
    };
    let (transactions, txs_end) = match read_transaction_list(bytes, 96) {
        Some(x) => x,
        None => {
            return Err(DecodeError::Truncated);
        },
    };
    let (vdf_proof, vdf_end) = match read_byte_string(bytes, txs_end) {
        Some(x) => x,
        None => {
            return Err(DecodeError::Truncated);
        },
    };
    if vdf_end != bytes.len() {
        return Err(DecodeError::TrailingBytes);
    }
    let b = Block { id, previous_hash, proposer, transactions, vdf_proof };
    assert(bytes@ =~= bytes@.subrange(0, 32) + bytes@.subrange(32, 64) + bytes@.subrange(64, 96)
        + bytes@.subrange(96, txs_end as int) + bytes@.subrange(txs_end as int, vdf_end as int));
    assert(bytes@ =~= enc_block(b@));
    Ok(b)
}

} // verus!
