//! Vocabularies: the byte strings of token identifiers.

use std::cmp::Ordering;

use vstd::prelude::*;

use crate::error::Error;
use crate::text;

verus! {

/// A token: its bytes and one of its identifiers.
#[derive(Debug, PartialEq, Eq)]
pub struct TokenEntry {
    pub bytes: Vec<u8>,
    pub id: u32,
}

impl Clone for TokenEntry {
    fn clone(&self) -> (copy: Self)
        ensures
            copy.bytes@ == self.bytes@,
            copy.id == self.id,
    {
        let bytes = self.bytes.clone();
        assert(bytes@ =~= self.bytes@);
        TokenEntry { bytes, id: self.id }
    }
}

/// A vocabulary: tokens, and the identifier that ends a sequence.
#[derive(Debug, PartialEq, Eq)]
pub struct Vocabulary {
    pub eos: u32,
    pub entries: Vec<TokenEntry>,
}

/// Whether a byte string has an identifier in a list of tokens.
pub open spec fn names(entries: Seq<TokenEntry>, bytes: Seq<u8>, id: u32) -> bool {
    exists|i: int|
        0 <= i < entries.len() && (#[trigger] entries[i]).bytes@ == bytes && entries[i].id == id
}

/// The identifiers of a byte string among the first `n` tokens.
pub open spec fn ids_of(entries: Seq<TokenEntry>, bytes: Seq<u8>, n: nat) -> Seq<u32>
    decreases n,
{
    if n == 0 || n > entries.len() {
        Seq::empty()
    } else if entries[n - 1].bytes@ == bytes {
        ids_of(entries, bytes, (n - 1) as nat).push(entries[n - 1].id)
    } else {
        ids_of(entries, bytes, (n - 1) as nat)
    }
}

/// Byte strings and their identifiers, as they are listed.
pub open spec fn listed(entries: Seq<TokenEntry>) -> Seq<(Seq<u8>, u32)> {
    entries.map_values(|entry: TokenEntry| (entry.bytes@, entry.id))
}

/// The first `n` tokens without those of a byte string, in their order.
pub open spec fn without(entries: Seq<TokenEntry>, bytes: Seq<u8>, n: nat) -> Seq<(Seq<u8>, u32)>
    decreases n,
{
    if n == 0 || n > entries.len() {
        Seq::empty()
    } else if entries[n - 1].bytes@ == bytes {
        without(entries, bytes, (n - 1) as nat)
    } else {
        without(entries, bytes, (n - 1) as nat).push((entries[n - 1].bytes@, entries[n - 1].id))
    }
}

/// A byte string has just the identifiers that are listed of it.
proof fn lemma_ids(entries: Seq<TokenEntry>, bytes: Seq<u8>, n: nat, id: u32)
    requires
        n <= entries.len(),
    ensures
        ids_of(entries, bytes, n).contains(id) <==> exists|i: int|
            0 <= i < n && (#[trigger] entries[i]).bytes@ == bytes && entries[i].id == id,
    decreases n,
{
    if n > 0 {
        lemma_ids(entries, bytes, (n - 1) as nat, id);
        let front = ids_of(entries, bytes, (n - 1) as nat);
        if entries[n - 1].bytes@ == bytes {
            assert(front.push(entries[n - 1].id).last() == entries[n - 1].id);
            if front.contains(id) {
                let k = choose|k: int| 0 <= k < front.len() && front[k] == id;
                assert(front.push(entries[n - 1].id)[k] == id);
            }
        }
    }
}

impl Vocabulary {
    /// Whether a byte string has an identifier.
    pub open spec fn holds(&self, bytes: Seq<u8>, id: u32) -> bool {
        names(self.entries@, bytes, id)
    }

    /// Whether no token has the identifier that ends a sequence.
    pub open spec fn ends_apart(&self) -> bool {
        forall|bytes: Seq<u8>| !#[trigger] names(self.entries@, bytes, self.eos)
    }

    /// An empty vocabulary.
    pub fn new(eos_token_id: u32) -> (vocabulary: Self)
        ensures
            vocabulary.eos == eos_token_id,
            vocabulary.entries@.len() == 0,
            vocabulary.ends_apart(),
    {
        Vocabulary { eos: eos_token_id, entries: Vec::new() }
    }

    /// Gives a byte string an identifier. The identifier that ends a sequence is refused.
    pub fn try_insert(&mut self, token: &[u8], id: u32) -> (result: Result<(), Error>)
        ensures
            final(self).eos == old(self).eos,
            result is Ok <==> id != old(self).eos,
            result matches Err(error) ==> error is EOSTokenDisallowed,
            old(self).ends_apart() ==> final(self).ends_apart(),
            result is Err ==> *final(self) == *old(self),
            result is Ok ==> {
                &&& final(self).entries@.len() == old(self).entries@.len() + 1
                &&& final(self).entries@.drop_last() == old(self).entries@
                &&& final(self).entries@.last().bytes@ == token@
                &&& final(self).entries@.last().id == id
            },
            result is Ok ==> forall|bytes: Seq<u8>, other: u32| #[trigger]
                final(self).holds(bytes, other) <==> old(self).holds(bytes, other) || (bytes
                    == token@ && other == id),
    {
        if id == self.eos {
            return Err(Error::EOSTokenDisallowed);
        }
        let mut bytes: Vec<u8> = Vec::new();
        bytes.extend_from_slice(token);
        let ghost before = self.entries@;
        assert(bytes@ =~= token@);
        self.entries.push(TokenEntry { bytes, id });
        proof {
            let after = self.entries@;
            assert(after.drop_last() =~= before);
            assert forall|bytes: Seq<u8>, other: u32| #[trigger]
                self.holds(bytes, other) <==> old(self).holds(bytes, other) || (bytes == token@
                    && other == id) by {
                if old(self).holds(bytes, other) {
                    let i = choose|i: int|
                        0 <= i < before.len() && (#[trigger] before[i]).bytes@ == bytes
                            && before[i].id == other;
                    assert(after[i].bytes@ == bytes);
                }
                if bytes == token@ && other == id {
                    assert(after[before.len() as int].bytes@ == bytes);
                }
            }
            if old(self).ends_apart() {
                assert forall|bytes: Seq<u8>| !#[trigger] names(self.entries@, bytes, self.eos) by {
                    assert(self.holds(bytes, self.eos) ==> old(self).holds(bytes, self.eos));
                }
            }
        }
        Ok(())
    }

    /// The tokens, in the order in which they came.
    pub fn tokens(&self) -> (entries: &Vec<TokenEntry>)
        ensures
            *entries == self.entries,
    {
        &self.entries
    }

    /// The identifiers of a byte string, in the order in which they came.
    pub fn token_ids(&self, token: &[u8]) -> (ids: Vec<u32>)
        ensures
            ids@ == ids_of(self.entries@, token@, self.entries@.len()),
            forall|id: u32| ids@.contains(id) <==> #[trigger] self.holds(token@, id),
    {
        let mut ids: Vec<u32> = Vec::new();
        let mut index: usize = 0;
        while index < self.entries.len()
            invariant
                index <= self.entries@.len(),
                ids@ == ids_of(self.entries@, token@, index as nat),
            decreases self.entries@.len() - index,
        {
            if text::same_bytes(self.entries[index].bytes.as_slice(), token) {
                ids.push(self.entries[index].id);
            }
            index += 1;
        }
        proof {
            assert forall|id: u32| ids@.contains(id) <==> #[trigger] self.holds(token@, id) by {
                lemma_ids(self.entries@, token@, self.entries@.len(), id);
            }
        }
        ids
    }

    /// Takes a byte string out, with all its identifiers. The other tokens stay as they are, in their
    /// order.
    pub fn remove(&mut self, token: &[u8])
        ensures
            final(self).eos == old(self).eos,
            old(self).ends_apart() ==> final(self).ends_apart(),
            listed(final(self).entries@) == without(
                old(self).entries@,
                token@,
                old(self).entries@.len(),
            ),
            forall|bytes: Seq<u8>, id: u32| #[trigger]
                final(self).holds(bytes, id) <==> bytes != token@ && old(self).holds(bytes, id),
    {
        let mut kept: Vec<TokenEntry> = Vec::new();
        let mut index: usize = 0;
        assert(listed(kept@) =~= Seq::empty());
        while index < self.entries.len()
            invariant
                *self == *old(self),
                index <= self.entries@.len(),
                listed(kept@) == without(self.entries@, token@, index as nat),
                forall|i: int|
                    0 <= i < index && self.entries@[i].bytes@ != token@ ==> names(
                        kept@,
                        (#[trigger] self.entries@[i]).bytes@,
                        self.entries@[i].id,
                    ),
                forall|k: int|
                    0 <= k < kept@.len() ==> (#[trigger] kept@[k]).bytes@ != token@ && self.holds(
                        kept@[k].bytes@,
                        kept@[k].id,
                    ),
            decreases self.entries@.len() - index,
        {
            let ghost before = kept@;
            if !text::same_bytes(self.entries[index].bytes.as_slice(), token) {
                kept.push(self.entries[index].clone());
                proof {
                    let last = kept@[before.len() as int];
                    assert(listed(kept@) =~= listed(before).push((last.bytes@, last.id)));
                    assert(self.entries@[index as int].bytes@ == last.bytes@);
                    assert forall|i: int|
                        0 <= i < index + 1 && self.entries@[i].bytes@ != token@ implies names(
                        kept@,
                        (#[trigger] self.entries@[i]).bytes@,
                        self.entries@[i].id,
                    ) by {
                        if i < index {
                            let k = choose|k: int|
                                0 <= k < before.len() && (#[trigger] before[k]).bytes@
                                    == self.entries@[i].bytes@ && before[k].id
                                    == self.entries@[i].id;
                            assert(kept@[k].bytes@ == self.entries@[i].bytes@);
                        } else {
                            assert(last.bytes@ == self.entries@[i].bytes@);
                        }
                    }
                }
            }
            index += 1;
        }
        let ghost old_entries = self.entries@;
        self.entries = kept;
        proof {
            assert forall|bytes: Seq<u8>, id: u32| #[trigger]
                self.holds(bytes, id) <==> bytes != token@ && old(self).holds(bytes, id) by {
                if self.holds(bytes, id) {
                    let k = choose|k: int|
                        0 <= k < kept@.len() && (#[trigger] kept@[k]).bytes@ == bytes && kept@[k].id
                            == id;
                    assert(old(self).holds(kept@[k].bytes@, kept@[k].id));
                }
                if bytes != token@ && old(self).holds(bytes, id) {
                    let i = choose|i: int|
                        0 <= i < old_entries.len() && (#[trigger] old_entries[i]).bytes@ == bytes
                            && old_entries[i].id == id;
                    assert(names(kept@, old_entries[i].bytes@, old_entries[i].id));
                }
            }
        }
    }

    /// The identifier that ends a sequence.
    pub fn eos_token_id(&self) -> (id: u32)
        ensures
            id == self.eos,
    {
        self.eos
    }
}

/// How two tokens are ordered: by their bytes, and with the same bytes by their identifiers.
fn entry_order(left: &TokenEntry, right: &TokenEntry) -> (order: Ordering)
    ensures
        order == (if text::bytes_before(left.bytes@, right.bytes@) {
            Ordering::Less
        } else if text::bytes_before(right.bytes@, left.bytes@) {
            Ordering::Greater
        } else if left.id < right.id {
            Ordering::Less
        } else if left.id > right.id {
            Ordering::Greater
        } else {
            Ordering::Equal
        }),
{
    if text::is_before(left.bytes.as_slice(), right.bytes.as_slice()) {
        Ordering::Less
    } else if text::is_before(right.bytes.as_slice(), left.bytes.as_slice()) {
        Ordering::Greater
    } else if left.id < right.id {
        Ordering::Less
    } else if left.id > right.id {
        Ordering::Greater
    } else {
        Ordering::Equal
    }
}

/// `slice::sort_by` with [`entry_order`]: the same tokens, each as often as before, in an order in
/// which no later one comes before an earlier one.
#[verifier::external_body]
pub(crate) fn sort_entries(list: &mut Vec<TokenEntry>)
    ensures
        final(list)@.to_multiset() == old(list)@.to_multiset(),
        forall|i: int, j: int|
            0 <= i < j < final(list)@.len() && (#[trigger] final(list)@[i]).bytes@ == (
            #[trigger] final(list)@[j]).bytes@ ==> final(list)@[i].id <= final(list)@[j].id,
        forall|i: int, j: int|
            0 <= i < j < final(list)@.len() ==> !text::bytes_before(
                (#[trigger] final(list)@[j]).bytes@,
                (#[trigger] final(list)@[i]).bytes@,
            ),
{
    list.sort_by(|left, right| entry_order(left, right));
}

/// The tokens in the order of their bytes.
pub(crate) fn sorted_entries(entries: &Vec<TokenEntry>) -> (sorted: Vec<TokenEntry>)
    ensures
        sorted@.len() == entries@.len(),
        forall|bytes: Seq<u8>, id: u32| #[trigger]
            names(sorted@, bytes, id) <==> names(entries@, bytes, id),
        forall|i: int, j: int|
            0 <= i < j < sorted@.len() ==> !text::bytes_before(
                (#[trigger] sorted@[j]).bytes@,
                (#[trigger] sorted@[i]).bytes@,
            ),
{
    let mut sorted: Vec<TokenEntry> = Vec::new();
    while sorted.len() < entries.len()
        invariant
            sorted@.len() <= entries@.len(),
            forall|i: int|
                0 <= i < sorted@.len() ==> (#[trigger] sorted@[i]).bytes@ == entries@[i].bytes@
                    && sorted@[i].id == entries@[i].id,
        decreases entries@.len() - sorted@.len(),
    {
        let copy = entries[sorted.len()].clone();
        sorted.push(copy);
    }
    let ghost copies = sorted@;
    sort_entries(&mut sorted);
    proof {
        broadcast use vstd::seq_lib::group_to_multiset_ensures;

        assert(sorted@.len() == copies.len()) by {
            copies.to_multiset_ensures();
            sorted@.to_multiset_ensures();
        }
        assert forall|bytes: Seq<u8>, id: u32| #[trigger]
            names(sorted@, bytes, id) <==> names(entries@, bytes, id) by {
            if names(sorted@, bytes, id) {
                let i = choose|i: int|
                    0 <= i < sorted@.len() && (#[trigger] sorted@[i]).bytes@ == bytes
                        && sorted@[i].id == id;
                assert(sorted@.contains(sorted@[i]));
                assert(copies.to_multiset().count(sorted@[i]) > 0);
                assert(copies.contains(sorted@[i]));
                let j = choose|j: int| 0 <= j < copies.len() && copies[j] == sorted@[i];
                assert(entries@[j].bytes@ == bytes);
            }
            if names(entries@, bytes, id) {
                let i = choose|i: int|
                    0 <= i < entries@.len() && (#[trigger] entries@[i]).bytes@ == bytes
                        && entries@[i].id == id;
                assert(copies[i].bytes@ == bytes);
                assert(copies.contains(copies[i]));
                assert(sorted@.to_multiset().count(copies[i]) > 0);
                assert(sorted@.contains(copies[i]));
                let j = choose|j: int| 0 <= j < sorted@.len() && sorted@[j] == copies[i];
                assert(sorted@[j].bytes@ == bytes);
            }
        }
    }
    sorted
}

} // verus!
