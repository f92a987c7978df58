//! The in-memory vault: a service-name-to-secret mapping with its
//! persistence format.
//!
//! The mapping lives decrypted in memory only for the session; `save`
//! turns it into a freshly encrypted container framing and `load` turns
//! such a framing back into a vault.  One vault instance is expected to
//! own its file: nothing here locks, and two writers to the same path
//! race, the later `save` silently winning.

use crate::container::{container_bytes, is_encryption_of, EncryptedData};
use crate::errors::VaultError;
use crate::kdf::password_ok;
use crate::text::bytes_to_string;
use crate::wipe::{wipe_bytes, wipe_string};
use crate::wire::{append_frame, append_u64, framed, le64, lemma_le64_injective, prefix_at,
    read_frame, read_u64};
use vstd::prelude::*;
use vstd::string::StringExecFns;
use vstd::utf8::{decode_utf8, decode_utf8_encode_utf8, encode_utf8, encode_utf8_decode_utf8,
    encode_utf8_valid_utf8};

verus! {

/// One service name with its stored secret.
#[derive(Debug)]
pub struct Entry {
    pub service: String,
    pub secret: String,
}

/// The decrypted mapping, held as a list of entries with pairwise
/// distinct service names.  Insertion order carries no meaning.
#[derive(Debug)]
pub struct VaultData {
    pub(crate) entries: Vec<Entry>,
}

/// The session state: the decrypted mapping.  The vault's location on
/// disk and all file I/O belong to the caller.
#[derive(Debug)]
pub struct Vault {
    pub(crate) data: VaultData,
}

/// The views of a run of entries: each entry as a pair of character
/// sequences.
pub open spec fn entry_views(es: Seq<Entry>) -> Seq<(Seq<char>, Seq<char>)> {
    es.map_values(|e: Entry| (e.service@, e.secret@))
}

/// The mapping that a run of entries denotes; a later entry for the same
/// key would win, but well-formed vaults never hold one.
pub open spec fn map_of(es: Seq<(Seq<char>, Seq<char>)>) -> Map<Seq<char>, Seq<char>>
    decreases es.len(),
{
    if es.len() == 0 {
        Map::empty()
    } else {
        map_of(es.drop_last()).insert(es.last().0, es.last().1)
    }
}

/// No two entries share a service name.
pub open spec fn unique_keys(es: Seq<(Seq<char>, Seq<char>)>) -> bool {
    forall|i: int, j: int| 0 <= i < j < es.len() ==> es[i].0 != es[j].0
}

/// Some entry carries the key `k`.
pub open spec fn key_in(es: Seq<(Seq<char>, Seq<char>)>, k: Seq<char>) -> bool {
    exists|i: int| 0 <= i < es.len() && es[i].0 == k
}

/// The keys of `map_of` are exactly the keys that occur in the run.
pub proof fn lemma_map_of_keys(es: Seq<(Seq<char>, Seq<char>)>)
    ensures
        forall|k: Seq<char>| #[trigger] map_of(es).contains_key(k) <==> key_in(es, k),
    decreases es.len(),
{
    if es.len() > 0 {
        lemma_map_of_keys(es.drop_last());
        assert forall|k: Seq<char>| #[trigger] map_of(es).contains_key(k) <==> key_in(es, k) by {
            if map_of(es).contains_key(k) {
                if k == es.last().0 {
                    assert(es[es.len() - 1].0 == k);
                } else {
                    assert(map_of(es.drop_last()).contains_key(k));
                    assert(key_in(es.drop_last(), k));
                    let i = choose|i: int|
                        0 <= i < es.drop_last().len() && es.drop_last()[i].0 == k;
                    assert(es.drop_last()[i] == es[i]);
                    assert(0 <= i < es.len() && es[i].0 == k);
                }
            }
            if key_in(es, k) {
                let i = choose|i: int| 0 <= i < es.len() && es[i].0 == k;
                if i < es.len() - 1 {
                    assert(es.drop_last()[i].0 == k);
                    assert(key_in(es.drop_last(), k));
                    assert(map_of(es.drop_last()).contains_key(k));
                } else {
                    assert(k == es.last().0);
                }
            }
        }
    }
}

/// Under distinct keys, `map_of` sends each entry's key to its value.
pub proof fn lemma_map_of_get(es: Seq<(Seq<char>, Seq<char>)>, i: int)
    requires
        unique_keys(es),
        0 <= i < es.len(),
    ensures
        map_of(es).contains_key(es[i].0),
        map_of(es)[es[i].0] == es[i].1,
    decreases es.len(),
{
    if i < es.len() - 1 {
        assert(es.drop_last()[i] == es[i]);
        lemma_map_of_get(es.drop_last(), i);
        assert(es[i].0 != es.last().0);
    }
}

/// Under distinct keys, removing an entry removes exactly its key.
pub proof fn lemma_map_of_remove(es: Seq<(Seq<char>, Seq<char>)>, i: int)
    requires
        unique_keys(es),
        0 <= i < es.len(),
    ensures
        unique_keys(es.remove(i)),
        map_of(es.remove(i)) == map_of(es).remove(es[i].0),
    decreases es.len(),
{
    let k = es[i].0;
    es.remove_ensures(i);
    assert forall|a: int, b: int| 0 <= a < b < es.remove(i).len() implies es.remove(i)[a].0
        != es.remove(i)[b].0 by {
        if a < i {
            assert(es.remove(i)[a] == es[a]);
        } else {
            assert(es.remove(i)[a] == es[a + 1]);
        }
        if b < i {
            assert(es.remove(i)[b] == es[b]);
        } else {
            assert(es.remove(i)[b] == es[b + 1]);
        }
    }
    if i == es.len() - 1 {
        assert(es.remove(i) =~= es.drop_last());
        lemma_map_of_keys(es.drop_last());
        assert(!key_in(es.drop_last(), k)) by {
            if key_in(es.drop_last(), k) {
                let j = choose|j: int| 0 <= j < es.drop_last().len() && es.drop_last()[j].0 == k;
                assert(es[j].0 == k);
            }
        }
        assert(map_of(es.drop_last()) =~= map_of(es).remove(k));
    } else {
        assert(unique_keys(es.drop_last()));
        lemma_map_of_remove(es.drop_last(), i);
        assert(es.remove(i).drop_last() =~= es.drop_last().remove(i));
        assert(es.remove(i).last() == es.last());
        assert(es.drop_last()[i] == es[i]);
        assert(k != es.last().0);
        assert(map_of(es.remove(i)) == map_of(es.drop_last().remove(i)).insert(
            es.last().0,
            es.last().1,
        ));
        assert(map_of(es.drop_last()).remove(k).insert(es.last().0, es.last().1) =~= map_of(
            es.drop_last(),
        ).insert(es.last().0, es.last().1).remove(k));
    }
}

impl VaultData {
    /// The entries as pairs of character sequences.
    pub closed spec fn entry_seq(&self) -> Seq<(Seq<char>, Seq<char>)> {
        entry_views(self.entries@)
    }

    /// Service names are pairwise distinct.
    pub open spec fn wf(&self) -> bool {
        unique_keys(self.entry_seq())
    }
}

impl View for VaultData {
    type V = Map<Seq<char>, Seq<char>>;

    open spec fn view(&self) -> Map<Seq<char>, Seq<char>> {
        map_of(self.entry_seq())
    }
}

impl View for Vault {
    type V = Map<Seq<char>, Seq<char>>;

    closed spec fn view(&self) -> Map<Seq<char>, Seq<char>> {
        self.data@
    }
}

/// The index of the entry for `service`, if one exists.
fn find_index(entries: &Vec<Entry>, service: &str) -> (r: Option<usize>)
    ensures
        r matches Some(i) ==> 0 <= i < entries@.len() && entry_views(entries@)[i as int].0
            == service@,
        r is None ==> !key_in(entry_views(entries@), service@),
{
    let target = String::from_str(service);
    let mut i: usize = 0;
    while i < entries.len()
        invariant
            i <= entries@.len(),
            target@ == service@,
            forall|j: int| 0 <= j < i ==> entry_views(entries@)[j].0 != service@,
        decreases entries@.len() - i,
    {
        if entries[i].service == target {
            return Some(i);
        }
        i += 1;
    }
    proof {
        assert(!key_in(entry_views(entries@), service@)) by {
            if key_in(entry_views(entries@), service@) {
                let j = choose|j: int|
                    0 <= j < entries@.len() && entry_views(entries@)[j].0 == service@;
            }
        }
    }
    None
}

impl Vault {
    /// The service names are pairwise distinct.
    pub closed spec fn wf(&self) -> bool {
        self.data.wf()
    }

    /// Start a brand-new vault with an empty mapping.
    ///
    /// `already_exists` is the storage layer's answer to whether a
    /// container already sits at the chosen path; creation refuses to
    /// shadow one.  The new vault is not persisted here — the caller
    /// follows up with `save`.
    pub fn create_new(already_exists: bool) -> (r: Result<Vault, VaultError>)
        ensures
            already_exists ==> r == Err::<Vault, VaultError>(VaultError::AlreadyExists),
            !already_exists ==> (r matches Ok(v) && v.wf() && v@ == Map::<
                Seq<char>,
                Seq<char>,
            >::empty()),
    {
        if already_exists {
            return Err(VaultError::AlreadyExists);
        }
        Ok(Vault { data: VaultData { entries: Vec::new() } })
    }

    /// Insert a secret for a new service.
    ///
    /// Fails with `DuplicateEntry`, leaving the mapping unchanged, when
    /// the service already has one.
    pub fn add_password(&mut self, service: &str, password: &str) -> (r: Result<(), VaultError>)
        requires
            old(self).wf(),
        ensures
            final(self).wf(),
            r is Ok <==> !old(self)@.contains_key(service@),
            r matches Ok(u) ==> final(self)@ == old(self)@.insert(service@, password@),
            r matches Err(e) ==> e == VaultError::DuplicateEntry && *final(self) == *old(self),
    {
        proof {
            lemma_map_of_keys(self.data.entry_seq());
        }
        match find_index(&self.data.entries, service) {
            Some(_) => Err(VaultError::DuplicateEntry),
            None => {
                let ghost es = self.data.entry_seq();
                let e = Entry {
                    service: String::from_str(service),
                    secret: String::from_str(password),
                };
                self.data.entries.push(e);
                proof {
                    assert(self.data.entry_seq() =~= es.push((service@, password@)));
                    assert(self.data.entry_seq().drop_last() =~= es);
                    assert forall|a: int, b: int|
                        0 <= a < b < self.data.entry_seq().len() implies self.data.entry_seq()[a].0
                        != self.data.entry_seq()[b].0 by {
                        if b == es.len() {
                            assert(es[a].0 != service@);
                        }
                    }
                }
                Ok(())
            },
        }
    }

    /// Look up the secret for a service; absence is a normal outcome.
    pub fn get_password(&self, service: &str) -> (r: Option<&String>)
        requires
            self.wf(),
        ensures
            r matches Some(p) ==> self@.contains_key(service@) && p@ == self@[service@],
            r is None ==> !self@.contains_key(service@),
    {
        proof {
            lemma_map_of_keys(self.data.entry_seq());
        }
        match find_index(&self.data.entries, service) {
            Some(i) => {
                proof {
                    lemma_map_of_get(self.data.entry_seq(), i as int);
                }
                Some(&self.data.entries[i].secret)
            },
            None => None,
        }
    }

    /// Replace the secret of an existing service.
    ///
    /// A nonexistent service is rejected with `MissingEntry` rather than
    /// silently created: updating is deliberately not an upsert, so a
    /// typo in the service name cannot plant a stray entry.  The old
    /// secret is overwritten before it is released.
    pub fn update_password(&mut self, service: &str, password: &str) -> (r: Result<
        (),
        VaultError,
    >)
        requires
            old(self).wf(),
        ensures
            final(self).wf(),
            r is Ok <==> old(self)@.contains_key(service@),
            r matches Ok(u) ==> final(self)@ == old(self)@.insert(service@, password@),
            r matches Err(e) ==> e == VaultError::MissingEntry && *final(self) == *old(self),
    {
        proof {
            lemma_map_of_keys(self.data.entry_seq());
        }
        match find_index(&self.data.entries, service) {
            None => Err(VaultError::MissingEntry),
            Some(i) => {
                let ghost es = self.data.entry_seq();
                let mut e = self.data.entries.remove(i);
                wipe_string(&mut e.secret);
                e.secret = String::from_str(password);
                self.data.entries.push(e);
                proof {
                    lemma_map_of_remove(es, i as int);
                    lemma_map_of_keys(es.remove(i as int));
                    assert(self.data.entry_seq() =~= es.remove(i as int).push(
                        (service@, password@),
                    ));
                    assert(self.data.entry_seq().drop_last() =~= es.remove(i as int));
                    assert forall|a: int, b: int|
                        0 <= a < b < self.data.entry_seq().len() implies self.data.entry_seq()[a].0
                        != self.data.entry_seq()[b].0 by {
                        if b == es.remove(i as int).len() {
                            if es.remove(i as int)[a].0 == service@ {
                                lemma_map_of_get(es.remove(i as int), a);
                                assert(map_of(es.remove(i as int)).contains_key(service@));
                            }
                        }
                    }
                    assert(final(self)@ =~= old(self)@.insert(service@, password@));
                }
                Ok(())
            },
        }
    }

    /// Remove the entry for a service.
    ///
    /// Returns whether one existed; a missing service is not an error and
    /// leaves the mapping untouched.  The removed secret is overwritten
    /// before it is released.
    pub fn remove_password(&mut self, service: &str) -> (r: bool)
        requires
            old(self).wf(),
        ensures
            final(self).wf(),
            r == old(self)@.contains_key(service@),
            final(self)@ == old(self)@.remove(service@),
    {
        proof {
            lemma_map_of_keys(self.data.entry_seq());
        }
        match find_index(&self.data.entries, service) {
            None => {
                proof {
                    assert(old(self)@.remove(service@) =~= old(self)@);
                }
                false
            },
            Some(i) => {
                let ghost es = self.data.entry_seq();
                let mut e = self.data.entries.remove(i);
                wipe_string(&mut e.secret);
                proof {
                    lemma_map_of_remove(es, i as int);
                    assert(self.data.entry_seq() =~= es.remove(i as int));
                }
                true
            },
        }
    }

    /// All stored service names, in no guaranteed order and without
    /// repetition.
    pub fn list_services(&self) -> (r: Vec<&String>)
        requires
            self.wf(),
        ensures
            forall|i: int| 0 <= i < r@.len() ==> self@.contains_key(#[trigger] r@[i]@),
            forall|i: int, j: int| 0 <= i < j < r@.len() ==> r@[i]@ != r@[j]@,
            forall|k: Seq<char>|
                #[trigger] self@.contains_key(k) ==> exists|i: int|
                    0 <= i < r@.len() && r@[i]@ == k,
    {
        let mut r: Vec<&String> = Vec::new();
        let mut i: usize = 0;
        while i < self.data.entries.len()
            invariant
                i <= self.data.entries@.len(),
                r@.len() == i,
                forall|j: int| 0 <= j < i ==> r@[j]@ == self.data.entry_seq()[j].0,
            decreases self.data.entries@.len() - i,
        {
            r.push(&self.data.entries[i].service);
            i += 1;
        }
        proof {
            lemma_map_of_keys(self.data.entry_seq());
            assert forall|i0: int| 0 <= i0 < r@.len() implies self@.contains_key(
                #[trigger] r@[i0]@,
            ) by {
                assert(self.data.entry_seq()[i0].0 == r@[i0]@);
            }
            assert forall|k: Seq<char>| #[trigger] self@.contains_key(k) implies exists|i0: int|
                0 <= i0 < r@.len() && r@[i0]@ == k by {
                let j = choose|j: int|
                    0 <= j < self.data.entry_seq().len() && self.data.entry_seq()[j].0 == k;
                assert(r@[j]@ == k);
            }
        }
        r
    }

    /// Overwrite every stored secret and empty the mapping; the end of a
    /// session.
    pub fn wipe(&mut self)
        ensures
            final(self).wf(),
            final(self)@ == Map::<Seq<char>, Seq<char>>::empty(),
    {
        while self.data.entries.len() > 0
            decreases self.data.entries@.len(),
        {
            let popped = self.data.entries.pop();
            match popped {
                Some(mut e) => {
                    wipe_string(&mut e.secret);
                },
                None => {},
            }
        }
        proof {
            assert(self.data.entry_seq() =~= Seq::<(Seq<char>, Seq<char>)>::empty());
        }
    }
}

/// The framing of one entry: the UTF-8 bytes of the service name, then
/// of the secret, each length-prefixed.
pub open spec fn entry_enc(e: (Seq<char>, Seq<char>)) -> Seq<u8> {
    framed(encode_utf8(e.0)) + framed(encode_utf8(e.1))
}

/// The framings of a run of entries, in order.
pub open spec fn entries_enc(es: Seq<(Seq<char>, Seq<char>)>) -> Seq<u8>
    decreases es.len(),
{
    if es.len() == 0 {
        Seq::empty()
    } else {
        entries_enc(es.drop_last()) + entry_enc(es.last())
    }
}

/// The decrypted payload format: the number of entries, then each entry.
pub open spec fn payload_bytes(es: Seq<(Seq<char>, Seq<char>)>) -> Seq<u8> {
    le64(es.len() as u64) + entries_enc(es)
}

/// `bytes` is a persisted image of the mapping `m` under `password`: a
/// container framing whose ciphertext seals some run of distinct-keyed
/// entries denoting `m`.
pub open spec fn is_vault_image(
    bytes: Seq<u8>,
    m: Map<Seq<char>, Seq<char>>,
    password: Seq<char>,
) -> bool {
    exists|c: EncryptedData, es: Seq<(Seq<char>, Seq<char>)>|
        {
            &&& bytes == #[trigger] container_bytes(c)
            &&& is_encryption_of(c, #[trigger] payload_bytes(es), password)
            &&& unique_keys(es)
            &&& map_of(es) == m
        }
}

/// Appending an entry extends its run's framing.
proof fn lemma_entries_enc_push(es: Seq<(Seq<char>, Seq<char>)>, e: (Seq<char>, Seq<char>))
    ensures
        entries_enc(es.push(e)) == entries_enc(es) + entry_enc(e),
{
    assert(es.push(e).drop_last() =~= es);
    assert(es.push(e).last() == e);
}

/// The framing of a concatenation is the concatenation of the framings.
proof fn lemma_entries_enc_cat(a: Seq<(Seq<char>, Seq<char>)>, b: Seq<(Seq<char>, Seq<char>)>)
    ensures
        entries_enc(a + b) == entries_enc(a) + entries_enc(b),
    decreases b.len(),
{
    if b.len() == 0 {
        assert(a + b =~= a);
        assert(entries_enc(a) + entries_enc(b) =~= entries_enc(a));
    } else {
        lemma_entries_enc_cat(a, b.drop_last());
        assert((a + b).drop_last() =~= a + b.drop_last());
        assert((a + b).last() == b.last());
        assert(entries_enc(a + b) =~= entries_enc(a) + entries_enc(b));
    }
}

/// Every entry takes at least its two length prefixes.
proof fn lemma_entries_enc_len(es: Seq<(Seq<char>, Seq<char>)>)
    ensures
        entries_enc(es).len() >= 16 * es.len(),
    decreases es.len(),
{
    if es.len() > 0 {
        lemma_entries_enc_len(es.drop_last());
    }
}

/// A run's framing splits at any entry into the part before it, the
/// entry itself, and the part after it.
proof fn lemma_entries_enc_decompose(es: Seq<(Seq<char>, Seq<char>)>, k: int)
    requires
        0 <= k < es.len(),
    ensures
        entries_enc(es) == entries_enc(es.take(k)) + entry_enc(es[k]) + entries_enc(
            es.skip(k + 1),
        ),
{
    lemma_entries_enc_cat(es.take(k + 1), es.skip(k + 1));
    assert(es.take(k + 1) + es.skip(k + 1) =~= es);
    assert(es.take(k + 1).drop_last() =~= es.take(k));
    assert(es.take(k + 1).last() == es[k]);
    assert(entries_enc(es) =~= entries_enc(es.take(k)) + entry_enc(es[k]) + entries_enc(
        es.skip(k + 1),
    ));
}

/// A prefix made of two parts is each part in turn.
proof fn lemma_prefix_split(s: Seq<u8>, i: int, x: Seq<u8>, y: Seq<u8>)
    requires
        prefix_at(s, i, x + y),
    ensures
        prefix_at(s, i, x),
        prefix_at(s, i + x.len(), y),
{
    assert forall|t: int| 0 <= t < x.len() implies s[i + t] == x[t] by {
        assert(s.subrange(i, i + (x + y).len() as int)[t] == (x + y)[t]);
    }
    assert(s.subrange(i, i + x.len() as int) =~= x);
    assert forall|t: int| 0 <= t < y.len() implies s[i + x.len() + t] == y[t] by {
        assert(s.subrange(i, i + (x + y).len() as int)[x.len() + t] == (x + y)[x.len() + t]);
    }
    assert(s.subrange(i + x.len(), i + x.len() + y.len() as int) =~= y);
}

impl VaultData {
    /// Frame the mapping as payload bytes, exactly `payload_bytes`.
    fn to_payload(&self) -> (r: Vec<u8>)
        ensures
            r@ == payload_bytes(self.entry_seq()),
    {
        let ghost es = self.entry_seq();
        let mut out: Vec<u8> = Vec::new();
        append_u64(&mut out, self.entries.len() as u64);
        let mut i: usize = 0;
        while i < self.entries.len()
            invariant
                i <= self.entries@.len(),
                es == self.entry_seq(),
                es.len() == self.entries@.len(),
                out@ == le64(self.entries@.len() as u64) + entries_enc(es.take(i as int)),
            decreases self.entries@.len() - i,
        {
            append_frame(&mut out, self.entries[i].service.as_str().as_bytes());
            append_frame(&mut out, self.entries[i].secret.as_str().as_bytes());
            proof {
                assert(es.take(i + 1).drop_last() =~= es.take(i as int));
                assert(es.take(i + 1).last() == es[i as int]);
                assert(out@ =~= le64(self.entries@.len() as u64) + entries_enc(
                    es.take(i + 1),
                ));
            }
            i += 1;
        }
        proof {
            assert(es.take(es.len() as int) =~= es);
        }
        out
    }

    /// Parse payload bytes back into a mapping.
    ///
    /// Succeeds exactly on the framings that `to_payload` produces from a
    /// distinct-keyed run — in particular it inverts `to_payload` — and
    /// reports everything else, a repeated service name included, as
    /// `VaultCorrupt`.
    fn from_payload(bytes: &[u8]) -> (r: Result<VaultData, VaultError>)
        ensures
            r matches Ok(d) ==> d.wf() && bytes@ == payload_bytes(d.entry_seq()),
            forall|es: Seq<(Seq<char>, Seq<char>)>|
                unique_keys(es) && bytes@ == #[trigger] payload_bytes(es) ==> (r matches Ok(d)
                    && d.entry_seq() == es),
            r matches Err(e) ==> e == VaultError::VaultCorrupt,
    {
        let ghost gb = bytes@;
        let count = match read_u64(bytes, 0) {
            Some(p) => p.0,
            None => {
                return Err(VaultError::VaultCorrupt);
            },
        };
        let total = bytes.len();
        let mut d = VaultData { entries: Vec::new() };
        let mut pos: usize = 8;
        let mut k: u64 = 0;
        proof {
            assert(d.entry_seq() =~= Seq::<(Seq<char>, Seq<char>)>::empty());
            assert(gb.subrange(8, 8) =~= entries_enc(d.entry_seq()));
        }
        while k < count
            invariant
                gb == bytes@,
                gb.len() == total,
                8 <= pos <= gb.len(),
                k <= count,
                le64(count) == gb.subrange(0, 8),
                d.wf(),
                d.entry_seq().len() == k,
                gb.subrange(8, pos as int) == entries_enc(d.entry_seq()),
                forall|es: Seq<(Seq<char>, Seq<char>)>|
                    unique_keys(es) && gb == #[trigger] payload_bytes(es) ==> (k <= es.len()
                        && d.entry_seq() == es.take(k as int) && pos == 8 + entries_enc(
                        es.take(k as int),
                    ).len()),
            decreases count - k,
        {
            proof {
                assert forall|es: Seq<(Seq<char>, Seq<char>)>|
                    unique_keys(es) && gb == #[trigger] payload_bytes(es) implies k < es.len()
                    && prefix_at(gb, pos as int, framed(encode_utf8(es[k as int].0)))
                    && prefix_at(
                    gb,
                    pos + 8 + encode_utf8(es[k as int].0).len(),
                    framed(encode_utf8(es[k as int].1)),
                ) by {
                    lemma_payload_position(gb, es, count, k as int, pos as int);
                }
            }
            let (svc_bytes, p1) = match read_frame(bytes, pos) {
                Some(p) => p,
                None => {
                    return Err(VaultError::VaultCorrupt);
                },
            };
            let (sec_bytes, p2) = match read_frame(bytes, p1) {
                Some(p) => p,
                None => {
                    return Err(VaultError::VaultCorrupt);
                },
            };
            let ghost gsvc = svc_bytes@;
            let ghost gsec = sec_bytes@;
            let service = match bytes_to_string(svc_bytes) {
                Ok(t) => t,
                Err(_) => {
                    proof {
                        assert forall|es: Seq<(Seq<char>, Seq<char>)>|
                            unique_keys(es) && gb == #[trigger] payload_bytes(es) implies false by {
                            encode_utf8_valid_utf8(es[k as int].0);
                        }
                    }
                    return Err(VaultError::VaultCorrupt);
                },
            };
            let secret = match bytes_to_string(sec_bytes) {
                Ok(t) => t,
                Err(_) => {
                    proof {
                        assert forall|es: Seq<(Seq<char>, Seq<char>)>|
                            unique_keys(es) && gb == #[trigger] payload_bytes(es) implies false by {
                            encode_utf8_valid_utf8(es[k as int].1);
                        }
                    }
                    return Err(VaultError::VaultCorrupt);
                },
            };
            let dup = find_index(&d.entries, service.as_str());
            match dup {
                Some(u) => {
                    proof {
                        assert forall|es: Seq<(Seq<char>, Seq<char>)>|
                            unique_keys(es) && gb == #[trigger] payload_bytes(es) implies false by {
                            encode_utf8_decode_utf8(es[k as int].0);
                            assert(service@ == es[k as int].0);
                            let u0 = u as int;
                            assert(es.take(k as int)[u0].0 == service@);
                            assert(es[u0].0 == es[k as int].0);
                        }
                    }
                    return Err(VaultError::VaultCorrupt);
                },
                None => {},
            }
            let ghost old_seq = d.entry_seq();
            d.entries.push(Entry { service, secret });
            pos = p2;
            k = k + 1;
            proof {
                assert(d.entry_seq() =~= old_seq.push((decode_utf8(gsvc), decode_utf8(gsec))));
                assert(d.entry_seq().drop_last() =~= old_seq);
                lemma_entries_enc_push(old_seq, (decode_utf8(gsvc), decode_utf8(gsec)));
                decode_utf8_encode_utf8(gsvc);
                decode_utf8_encode_utf8(gsec);
                assert forall|a: int, b: int|
                    0 <= a < b < d.entry_seq().len() implies d.entry_seq()[a].0
                    != d.entry_seq()[b].0 by {
                    if b == old_seq.len() {
                        assert(!key_in(old_seq, d.entry_seq()[b].0));
                        assert(old_seq[a].0 != d.entry_seq()[b].0);
                    }
                }
                assert(gb.subrange(8, pos as int) =~= entries_enc(old_seq) + framed(gsvc)
                    + framed(gsec));
                assert(gb.subrange(8, pos as int) == entries_enc(d.entry_seq()));
                assert forall|es: Seq<(Seq<char>, Seq<char>)>|
                    unique_keys(es) && gb == #[trigger] payload_bytes(es) implies (k <= es.len()
                    && d.entry_seq() == es.take(k as int) && pos == 8 + entries_enc(
                    es.take(k as int),
                ).len()) by {
                    encode_utf8_decode_utf8(es[k - 1].0);
                    encode_utf8_decode_utf8(es[k - 1].1);
                    assert(es.take(k as int).drop_last() =~= es.take(k - 1));
                    assert(es.take(k as int).last() == es[k - 1]);
                    lemma_entries_enc_push(es.take(k - 1), es[k - 1]);
                    assert(d.entry_seq() =~= es.take(k as int));
                }
            }
        }
        if pos != bytes.len() {
            proof {
                assert forall|es: Seq<(Seq<char>, Seq<char>)>|
                    unique_keys(es) && gb == #[trigger] payload_bytes(es) implies false by {
                    lemma_payload_count(gb, es, count);
                    assert(es.take(es.len() as int) =~= es);
                }
            }
            return Err(VaultError::VaultCorrupt);
        }
        proof {
            assert(gb =~= payload_bytes(d.entry_seq())) by {
                assert(d.entry_seq().len() == count);
                assert(le64(d.entry_seq().len() as u64) == gb.subrange(0, 8));
                assert forall|t: int| 0 <= t < gb.len() implies gb[t] == payload_bytes(
                    d.entry_seq(),
                )[t] by {
                    if t < 8 {
                        assert(gb.subrange(0, 8)[t] == gb[t]);
                    } else {
                        assert(gb.subrange(8, pos as int)[t - 8] == gb[t]);
                    }
                }
            }
            assert forall|es: Seq<(Seq<char>, Seq<char>)>|
                unique_keys(es) && gb == #[trigger] payload_bytes(es) implies d.entry_seq()
                == es by {
                lemma_payload_count(gb, es, count);
                assert(es.take(es.len() as int) =~= es);
            }
        }
        Ok(d)
    }
}

/// In a payload framing, the entry count in the first eight bytes is the
/// run's length.
proof fn lemma_payload_count(gb: Seq<u8>, es: Seq<(Seq<char>, Seq<char>)>, count: u64)
    requires
        gb == payload_bytes(es),
        le64(count) == gb.subrange(0, 8),
        gb.len() <= usize::MAX,
    ensures
        es.len() == count,
{
    assert(gb.subrange(0, 8) =~= le64(es.len() as u64));
    lemma_entries_enc_len(es);
    assert(es.len() <= gb.len());
    lemma_le64_injective(count, es.len() as u64);
}

/// In a payload framing, after the framings of the first `k` entries the
/// framing of entry `k` follows: first its service name, then its secret.
#[verifier::rlimit(50)]
proof fn lemma_payload_position(
    gb: Seq<u8>,
    es: Seq<(Seq<char>, Seq<char>)>,
    count: u64,
    k: int,
    pos: int,
)
    requires
        gb == payload_bytes(es),
        gb.len() <= usize::MAX,
        le64(count) == gb.subrange(0, 8),
        0 <= k < count,
        pos == 8 + entries_enc(es.take(k)).len(),
    ensures
        k < es.len(),
        prefix_at(gb, pos, framed(encode_utf8(es[k].0))),
        prefix_at(gb, pos + 8 + encode_utf8(es[k].0).len(), framed(encode_utf8(es[k].1))),
{
    lemma_payload_count(gb, es, count);
    lemma_entries_enc_decompose(es, k);
    let head = le64(es.len() as u64) + entries_enc(es.take(k));
    assert(head.len() == pos);
    assert(prefix_at(gb, 0, gb)) by {
        assert(gb.subrange(0, gb.len() as int) =~= gb);
    }
    assert(gb =~= head + (entry_enc(es[k]) + entries_enc(es.skip(k + 1))));
    lemma_prefix_split(gb, 0, head, entry_enc(es[k]) + entries_enc(es.skip(k + 1)));
    lemma_prefix_split(gb, pos, entry_enc(es[k]), entries_enc(es.skip(k + 1)));
    lemma_prefix_split(
        gb,
        pos,
        framed(encode_utf8(es[k].0)),
        framed(encode_utf8(es[k].1)),
    );
}

impl Vault {
    /// The size of the payload framing of the current mapping.
    pub closed spec fn payload_size(&self) -> nat {
        payload_bytes(self.data.entry_seq()).len()
    }

    /// Serialize and encrypt the mapping for persistence.
    ///
    /// The whole container is rebuilt: a fresh salt, a fresh nonce, a
    /// fresh verification hash, the full payload re-encrypted.  The
    /// caller writes the returned bytes to storage, replacing any prior
    /// content; a failure here therefore never touches what is on disk.
    /// The plaintext payload buffer is overwritten before release.
    pub fn save(&self, master_password: &str) -> (r: Result<Vec<u8>, VaultError>)
        requires
            self.wf(),
        ensures
            r matches Ok(b) ==> is_vault_image(b@, self@, master_password@),
            r is Ok <==> password_ok(master_password@) && self.payload_size()
                <= 0x10_0000_0000,
            r matches Err(e) ==> (e == VaultError::DerivationError
                || e == VaultError::AuthenticationError),
    {
        let mut payload = self.data.to_payload();
        let enc = EncryptedData::encrypt(payload.as_slice(), master_password);
        wipe_bytes(&mut payload);
        let c = match enc {
            Ok(c) => c,
            Err(e) => {
                return Err(e);
            },
        };
        let out = c.to_bytes();
        proof {
            let es = self.data.entry_seq();
            assert(out@ == container_bytes(c) && is_encryption_of(
                c,
                payload_bytes(es),
                master_password@,
            ) && unique_keys(es) && map_of(es) == self@);
        }
        Ok(out)
    }

    /// Decrypt and parse a stored vault image.
    ///
    /// The bytes are whatever the storage layer read back; a missing
    /// file is the caller's `NotFound`, before anything reaches here.
    /// Malformed framings — of the container or of the decrypted
    /// payload — are `VaultCorrupt`; a password rejected by the
    /// verification hash is `WrongPassword`; a ciphertext that fails
    /// authentication afterwards is `AuthenticationError`.  On an image
    /// that `save` produced with this password, the saved mapping comes
    /// back.  The decrypted payload buffer is overwritten before
    /// release.
    pub fn load(bytes: &[u8], master_password: &str) -> (r: Result<Vault, VaultError>)
        ensures
            r matches Ok(v) ==> v.wf(),
            forall|m: Map<Seq<char>, Seq<char>>|
                #[trigger] is_vault_image(bytes@, m, master_password@) ==> (r matches Ok(v) && v@
                    == m),
            forall|m: Map<Seq<char>, Seq<char>>, p: Seq<char>|
                #[trigger] is_vault_image(bytes@, m, p) && p != master_password@ ==> r == Err::<
                    Vault,
                    VaultError,
                >(VaultError::WrongPassword),
            r matches Err(e) ==> (e == VaultError::VaultCorrupt || e == VaultError::WrongPassword
                || e == VaultError::AuthenticationError || e == VaultError::DerivationError),
    {
        let ghost gb = bytes@;
        let parsed = EncryptedData::from_bytes(bytes);
        let c = match parsed {
            Ok(c) => c,
            Err(e) => {
                proof {
                    assert forall|m: Map<Seq<char>, Seq<char>>, p: Seq<char>| #[trigger]
                        is_vault_image(gb, m, p) implies false by {
                        let (w, es) = image_witness(gb, m, p);
                    }
                }
                return Err(VaultError::VaultCorrupt);
            },
        };
        let decrypted = c.decrypt(master_password);
        let mut payload = match decrypted {
            Ok(p) => p,
            Err(e) => {
                proof {
                    assert forall|m: Map<Seq<char>, Seq<char>>| #[trigger]
                        is_vault_image(gb, m, master_password@) implies false by {
                        let (w, es) = image_witness(gb, m, master_password@);
                        assert(is_encryption_of(c, payload_bytes(es), master_password@));
                    }
                    assert forall|m: Map<Seq<char>, Seq<char>>, p: Seq<char>| #[trigger]
                        is_vault_image(gb, m, p) && p != master_password@ implies e
                        == VaultError::WrongPassword by {
                        let (w, es) = image_witness(gb, m, p);
                        assert(c.password_hash@ == w.password_hash@);
                        assert(crate::kdf::phc_verifies(c.password_hash@, p));
                    }
                }
                return Err(e);
            },
        };
        let parsed_data = VaultData::from_payload(payload.as_slice());
        let ghost gpayload = payload@;
        wipe_bytes(&mut payload);
        match parsed_data {
            Ok(d) => {
                proof {
                    assert forall|m: Map<Seq<char>, Seq<char>>| #[trigger]
                        is_vault_image(gb, m, master_password@) implies map_of(d.entry_seq())
                        == m by {
                        let (w, es) = image_witness(gb, m, master_password@);
                        assert(is_encryption_of(c, payload_bytes(es), master_password@));
                        assert(gpayload == payload_bytes(es));
                        assert(d.entry_seq() == es);
                    }
                    assert forall|m: Map<Seq<char>, Seq<char>>, p: Seq<char>| #[trigger]
                        is_vault_image(gb, m, p) implies p == master_password@ by {
                        let (w, es) = image_witness(gb, m, p);
                        assert(c.password_hash@ == w.password_hash@);
                        assert(crate::kdf::phc_verifies(c.password_hash@, master_password@));
                    }
                }
                Ok(Vault { data: d })
            },
            Err(e) => {
                proof {
                    assert forall|m: Map<Seq<char>, Seq<char>>, p: Seq<char>| #[trigger]
                        is_vault_image(gb, m, p) implies false by {
                        let (w, es) = image_witness(gb, m, p);
                        assert(c.password_hash@ == w.password_hash@);
                        assert(crate::kdf::phc_verifies(c.password_hash@, master_password@));
                        assert(p == master_password@);
                        assert(is_encryption_of(c, payload_bytes(es), master_password@));
                        assert(gpayload == payload_bytes(es));
                    }
                }
                Err(e)
            },
        }
    }
}

/// Produce the container and entry run that witness a vault image.
proof fn image_witness(bytes: Seq<u8>, m: Map<Seq<char>, Seq<char>>, password: Seq<char>) -> (w: (
    EncryptedData,
    Seq<(Seq<char>, Seq<char>)>,
))
    requires
        is_vault_image(bytes, m, password),
    ensures
        bytes == container_bytes(w.0),
        is_encryption_of(w.0, payload_bytes(w.1), password),
        unique_keys(w.1),
        map_of(w.1) == m,
{
    choose|c: EncryptedData, es: Seq<(Seq<char>, Seq<char>)>|
        {
            &&& bytes == #[trigger] container_bytes(c)
            &&& is_encryption_of(c, #[trigger] payload_bytes(es), password)
            &&& unique_keys(es)
            &&& map_of(es) == m
        }
}

} // verus!
