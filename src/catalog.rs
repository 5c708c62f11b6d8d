//! The shared card catalog, kept in ascending key order so that every walk
//! over it (deck construction above all) is the same on every run.

use vstd::prelude::*;
use vstd::seq_lib::{to_multiset_contains, to_multiset_insert, to_multiset_len, to_multiset_remove};
use vstd::utf8::{encode_utf8, encode_utf8_decode_utf8};

use crate::card::{CardData, CardId};

verus! {

/// The bytes by which catalog keys are ordered: their UTF-8 encoding, which
/// is the order `str` itself compares by.
pub open spec fn key_bytes(id: Seq<char>) -> Seq<u8> {
    encode_utf8(id)
}

/// Lexicographic strict order on byte strings.
pub open spec fn bytes_lt(a: Seq<u8>, b: Seq<u8>) -> bool
    decreases a.len(),
{
    if b.len() == 0 {
        false
    } else if a.len() == 0 {
        true
    } else if a[0] != b[0] {
        a[0] < b[0]
    } else {
        bytes_lt(a.drop_first(), b.drop_first())
    }
}

/// Strict order on catalog keys.
pub open spec fn key_lt(a: Seq<char>, b: Seq<char>) -> bool {
    bytes_lt(key_bytes(a), key_bytes(b))
}

/// Entries listed in strictly ascending key order (so no key occurs twice).
pub open spec fn keys_ascending(s: Seq<CardData>) -> bool {
    forall|i: int, j: int| 0 <= i < j < s.len() ==> key_lt(#[trigger] s[i].id@, #[trigger] s[j].id@)
}

/// Whether some entry of `s` has key `id`.
pub open spec fn has_key(s: Seq<CardData>, id: Seq<char>) -> bool {
    exists|i: int| 0 <= i < s.len() && #[trigger] s[i].id@ == id
}

pub proof fn lemma_bytes_lt_irreflexive(a: Seq<u8>)
    ensures
        !bytes_lt(a, a),
    decreases a.len(),
{
    if a.len() > 0 {
        lemma_bytes_lt_irreflexive(a.drop_first());
    }
}

pub proof fn lemma_bytes_lt_transitive(a: Seq<u8>, b: Seq<u8>, c: Seq<u8>)
    requires
        bytes_lt(a, b),
        bytes_lt(b, c),
    ensures
        bytes_lt(a, c),
    decreases a.len(),
{
    if a.len() > 0 && a[0] == b[0] && b[0] == c[0] {
        lemma_bytes_lt_transitive(a.drop_first(), b.drop_first(), c.drop_first());
    }
}

pub proof fn lemma_bytes_lt_total(a: Seq<u8>, b: Seq<u8>)
    requires
        a != b,
    ensures
        bytes_lt(a, b) || bytes_lt(b, a),
    decreases a.len(),
{
    if a.len() == 0 && b.len() == 0 {
        assert(a =~= b);
    } else if a.len() > 0 && b.len() > 0 && a[0] == b[0] {
        if a.drop_first() == b.drop_first() {
            assert(a =~= seq![a[0]] + a.drop_first());
            assert(b =~= seq![b[0]] + b.drop_first());
        }
        lemma_bytes_lt_total(a.drop_first(), b.drop_first());
    }
}

/// Distinct keys are ordered one way or the other.
pub proof fn lemma_key_lt_total(a: Seq<char>, b: Seq<char>)
    requires
        a != b,
    ensures
        key_lt(a, b) || key_lt(b, a),
{
    encode_utf8_decode_utf8(a);
    encode_utf8_decode_utf8(b);
    lemma_bytes_lt_total(key_bytes(a), key_bytes(b));
}

/// Two key-ascending sequences that hold the same entries are the same
/// sequence.
pub proof fn lemma_ascending_unique(a: Seq<CardData>, b: Seq<CardData>)
    requires
        keys_ascending(a),
        keys_ascending(b),
        a.to_multiset() == b.to_multiset(),
    ensures
        a == b,
    decreases a.len(),
{
    to_multiset_len(a);
    to_multiset_len(b);
    if a.len() == 0 {
        assert(a =~= b);
    } else {
        to_multiset_contains(a, a[0]);
        to_multiset_contains(b, a[0]);
        assert(a.contains(a[0]));
        let j = choose|j: int| 0 <= j < b.len() && b[j] == a[0];
        to_multiset_contains(b, b[0]);
        to_multiset_contains(a, b[0]);
        assert(b.contains(b[0]));
        let i = choose|i: int| 0 <= i < a.len() && a[i] == b[0];
        if j > 0 {
            assert(key_lt(b[0].id@, b[j].id@));
            if i > 0 {
                assert(key_lt(a[0].id@, a[i].id@));
                lemma_bytes_lt_transitive(key_bytes(a[0].id@), key_bytes(a[i].id@), key_bytes(a[0].id@));
            }
            lemma_bytes_lt_irreflexive(key_bytes(a[0].id@));
        }
        assert(a[0] == b[0]);
        to_multiset_remove(a, 0);
        to_multiset_remove(b, 0);
        assert(a.remove(0) =~= a.drop_first());
        assert(b.remove(0) =~= b.drop_first());
        lemma_ascending_unique(a.drop_first(), b.drop_first());
        assert(a =~= seq![a[0]] + a.drop_first());
        assert(b =~= seq![b[0]] + b.drop_first());
    }
}

/// Whether key `a` orders strictly before key `b`.
pub fn key_less(a: &CardId, b: &CardId) -> (r: bool)
    ensures
        r == key_lt(a@, b@),
{
    let x = a.as_str().as_bytes();
    let y = b.as_str().as_bytes();
    let ghost xs = x@;
    let ghost ys = y@;
    let mut i: usize = 0;
    assert(xs.subrange(0, xs.len() as int) =~= xs);
    assert(ys.subrange(0, ys.len() as int) =~= ys);
    while i < x.len() && i < y.len() && x[i] == y[i]
        invariant
            xs == key_bytes(a@),
            ys == key_bytes(b@),
            x@ == xs,
            y@ == ys,
            i <= xs.len(),
            i <= ys.len(),
            bytes_lt(xs, ys) == bytes_lt(xs.subrange(i as int, xs.len() as int), ys.subrange(i as int, ys.len() as int)),
        decreases xs.len() - i,
    {
        let ghost xr = xs.subrange(i as int, xs.len() as int);
        let ghost yr = ys.subrange(i as int, ys.len() as int);
        assert(xr.drop_first() =~= xs.subrange(i + 1, xs.len() as int));
        assert(yr.drop_first() =~= ys.subrange(i + 1, ys.len() as int));
        i = i + 1;
    }
    let ghost xr = xs.subrange(i as int, xs.len() as int);
    let ghost yr = ys.subrange(i as int, ys.len() as int);
    if i == y.len() {
        false
    } else if i == x.len() {
        true
    } else {
        assert(xr[0] == xs[i as int] && yr[0] == ys[i as int]);
        x[i] < y[i]
    }
}

/// The card definitions of a match, in ascending key order.
pub struct Catalog {
    pub entries: Vec<CardData>,
}

impl View for Catalog {
    type V = Seq<CardData>;

    open spec fn view(&self) -> Seq<CardData> {
        self.entries@
    }
}

impl Catalog {
    /// Keys ascend strictly along the entries.
    pub open spec fn wf(&self) -> bool {
        keys_ascending(self@)
    }

    pub fn new() -> (r: Catalog)
        ensures
            r.wf(),
            r@ == Seq::<CardData>::empty(),
    {
        Catalog { entries: Vec::new() }
    }

    pub fn len(&self) -> (r: usize)
        ensures
            r == self@.len(),
    {
        self.entries.len()
    }

    /// Adds `card` at the place its key orders it to. A card whose key is
    /// already present is refused and the catalog is left as it was.
    pub fn insert(&mut self, card: CardData) -> (added: bool)
        requires
            old(self).wf(),
        ensures
            final(self).wf(),
            added == !has_key(old(self)@, card.id@),
            added ==> exists|p: int|
                0 <= p <= old(self)@.len() && final(self)@ == old(self)@.insert(p, card),
            added ==> final(self)@.to_multiset() == old(self)@.to_multiset().insert(card),
            !added ==> final(self)@ == old(self)@,
    {
        let ghost s = self@;
        let mut p: usize = 0;
        while p < self.entries.len() && key_less(&self.entries[p].id, &card.id)
            invariant
                self@ == s,
                keys_ascending(s),
                p <= s.len(),
                forall|k: int| 0 <= k < p ==> key_lt(#[trigger] s[k].id@, card.id@),
            decreases s.len() - p,
        {
            p = p + 1;
        }
        if p < self.entries.len() && self.entries[p].id == card.id {
            return false;
        }
        proof {
            // every key from p on orders after the new one
            if p < s.len() {
                lemma_key_lt_total(s[p as int].id@, card.id@);
            }
            assert forall|k: int| p <= k < s.len() implies key_lt(card.id@, #[trigger] s[k].id@) by {
                if k > p {
                    lemma_bytes_lt_transitive(key_bytes(card.id@), key_bytes(s[p as int].id@), key_bytes(s[k].id@));
                }
            }
            assert forall|k: int| 0 <= k < s.len() implies #[trigger] s[k].id@ != card.id@ by {
                if k < p {
                    lemma_bytes_lt_irreflexive(key_bytes(card.id@));
                } else {
                    lemma_bytes_lt_irreflexive(key_bytes(card.id@));
                }
            }
        }
        let ghost c = card;
        self.entries.insert(p, card);
        proof {
            to_multiset_insert(s, p as int, c);
            let t = s.insert(p as int, c);
            assert forall|i: int, j: int| 0 <= i < j < t.len() implies key_lt(#[trigger] t[i].id@, #[trigger] t[j].id@) by {
                if j < p {
                } else if j == p {
                } else if i < p {
                    lemma_bytes_lt_transitive(key_bytes(t[i].id@), key_bytes(c.id@), key_bytes(t[j].id@));
                } else if i == p {
                } else {
                    assert(t[i] == s[i - 1] && t[j] == s[j - 1]);
                }
            }
        }
        true
    }

    /// An entry-for-entry copy.
    pub fn duplicate(&self) -> (r: Catalog)
        ensures
            r@ == self@,
    {
        let mut entries: Vec<CardData> = Vec::new();
        let mut i: usize = 0;
        while i < self.entries.len()
            invariant
                i <= self@.len(),
                entries@ == self@.subrange(0, i as int),
            decreases self@.len() - i,
        {
            entries.push(self.entries[i].duplicate());
            i = i + 1;
            assert(entries@ =~= self@.subrange(0, i as int));
        }
        assert(self@.subrange(0, i as int) =~= self@);
        Catalog { entries }
    }

    /// The entry with key `id`, if any.
    pub fn get(&self, id: &CardId) -> (r: Option<&CardData>)
        ensures
            r is Some <==> has_key(self@, id@),
            r matches Some(c) ==> c.id@ == id@ && exists|i: int| 0 <= i < self@.len() && self@[i] == *c,
    {
        let mut i: usize = 0;
        while i < self.entries.len()
            invariant
                i <= self@.len(),
                forall|k: int| 0 <= k < i ==> #[trigger] self@[k].id@ != id@,
            decreases self@.len() - i,
        {
            if self.entries[i].id == *id {
                return Some(&self.entries[i]);
            }
            i = i + 1;
        }
        None
    }
}

} // verus!
