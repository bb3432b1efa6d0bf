//! Content-addressed distribution: a local block store with integrity checks.
//!
//! Immutable assets are identified by the cryptographic hash of their bytes rather than by a
//! network location. Identifiers are lowercase hex-encoded SHA-256 digests.
use crate::runtime::string_map::{bytes_in, StringMap};
use crate::strings::str_eq;
use vstd::prelude::*;
use vstd::string::*;

verus! {

/// The SHA-256 digest of bytes.
pub uninterp spec fn sha256_of(bytes: Seq<u8>) -> Seq<u8>;

/// `sha2::Sha256::digest`: the digest depends on the bytes alone, and is thirty-two bytes long.
#[verifier::external_body]
fn sha256(bytes: &[u8]) -> (d: Vec<u8>)
    ensures
        d@ == sha256_of(bytes@),
        d@.len() == 32,
{
    <sha2::Sha256 as sha2::Digest>::digest(bytes).to_vec()
}

/// A lowercase hex digit.
pub open spec fn hex_digit(n: int) -> char {
    if n < 10 {
        ('0' as int + n) as char
    } else {
        ('a' as int + n - 10) as char
    }
}

/// Bytes in lowercase hex, two digits each.
pub open spec fn hex_of(bytes: Seq<u8>) -> Seq<char> {
    Seq::new(
        2 * bytes.len(),
        |i: int|
            hex_digit(
                if i % 2 == 0 {
                    bytes[i / 2] as int / 16
                } else {
                    bytes[i / 2] as int % 16
                },
            ),
    )
}

/// The identifier of bytes.
pub open spec fn id_of(bytes: Seq<u8>) -> Seq<char> {
    hex_of(sha256_of(bytes))
}

/// A content identifier: the lowercase hex SHA-256 of the addressed bytes.
#[derive(Debug, Clone, PartialEq, Eq, Hash, PartialOrd, Ord)]
pub struct ContentId(pub String);

impl View for ContentId {
    type V = Seq<char>;

    open spec fn view(&self) -> Seq<char> {
        self.0@
    }
}

impl ContentId {
    /// A copy of the identifier.
    pub fn copy(&self) -> (r: Self)
        ensures
            r@ == self@,
    {
        ContentId(self.0.clone())
    }
}

fn digit_char(n: u8) -> (c: char)
    requires
        n < 16,
    ensures
        c == hex_digit(n as int),
{
    if n < 10 {
        (48 + n) as char
    } else {
        (87 + n) as char
    }
}

/// Bytes in lowercase hex.
pub fn hex(bytes: &[u8]) -> (s: String)
    ensures
        s@ == hex_of(bytes@),
{
    let mut s = String::new();
    let n = bytes.len();
    let mut i: usize = 0;
    while i < n
        invariant
            0 <= i <= n,
            n == bytes@.len(),
            s@.len() == 2 * i,
            forall|k: int| 0 <= k < 2 * i ==> s@[k] == hex_of(bytes@)[k],
        decreases n - i,
    {
        let b = bytes[i];
        s.push(digit_char(b / 16));
        s.push(digit_char(b % 16));
        proof {
            assert((2 * i) / 2 == i && (2 * i) % 2 == 0);
            assert((2 * i + 1) / 2 == i && (2 * i + 1) % 2 == 1);
        }
        i = i + 1;
    }
    assert(s@ =~= hex_of(bytes@));
    s
}

/// Compute the [`ContentId`] for a byte slice.
pub fn digest(bytes: &[u8]) -> (id: ContentId)
    ensures
        id@ == id_of(bytes@),
        id@.len() == 64,
{
    ContentId(hex(&sha256(bytes)))
}

/// Hex tells bytes apart: two digests with the same identifier are the same.
pub proof fn law_hex_is_injective(a: Seq<u8>, b: Seq<u8>)
    requires
        hex_of(a) == hex_of(b),
    ensures
        a == b,
{
    assert(hex_of(a).len() == 2 * a.len());
    assert(hex_of(b).len() == 2 * b.len());
    assert forall|i: int| 0 <= i < a.len() implies a[i] == b[i] by {
        assert((2 * i) / 2 == i && (2 * i) % 2 == 0);
        assert((2 * i + 1) / 2 == i && (2 * i + 1) % 2 == 1);
        assert(hex_of(a)[2 * i] == hex_digit(a[i] as int / 16));
        assert(hex_of(b)[2 * i] == hex_digit(b[i] as int / 16));
        assert(hex_of(a)[2 * i + 1] == hex_digit(a[i] as int % 16));
        assert(hex_of(b)[2 * i + 1] == hex_digit(b[i] as int % 16));
        lemma_hex_digit(a[i] as int / 16, b[i] as int / 16);
        lemma_hex_digit(a[i] as int % 16, b[i] as int % 16);
    }
    assert(a =~= b);
}

proof fn lemma_hex_digit(m: int, n: int)
    requires
        0 <= m < 16,
        0 <= n < 16,
        hex_digit(m) == hex_digit(n),
    ensures
        m == n,
{
    assert(hex_digit(m) as int == if m < 10 {
        48 + m
    } else {
        87 + m
    });
    assert(hex_digit(n) as int == if n < 10 {
        48 + n
    } else {
        87 + n
    });
}

/// A local, immutable content-addressed block store.
///
/// Blocks are keyed by their [`ContentId`]; inserting the same bytes twice is idempotent. All reads
/// are integrity-checked against the requested id, so a corrupted or substituted block is never
/// returned as valid.
#[derive(Debug)]
pub struct ContentStore {
    blocks: StringMap<Vec<u8>>,
}

impl View for ContentStore {
    type V = Map<Seq<char>, Seq<u8>>;

    closed spec fn view(&self) -> Map<Seq<char>, Seq<u8>> {
        bytes_in(self.blocks@)
    }
}

/// Every block is held under its own identifier.
pub open spec fn sound(blocks: Map<Seq<char>, Seq<u8>>) -> bool {
    forall|id: Seq<char>| #[trigger] blocks.dom().contains(id) ==> id_of(blocks[id]) == id
}

/// The blocks after bytes are put: under an identifier that is taken, nothing changes.
pub open spec fn after_put(blocks: Map<Seq<char>, Seq<u8>>, bytes: Seq<u8>) -> Map<
    Seq<char>,
    Seq<u8>,
> {
    if blocks.dom().contains(id_of(bytes)) {
        blocks
    } else {
        blocks.insert(id_of(bytes), bytes)
    }
}

/// A block that hashes to its identifier.
pub open spec fn verified_block(blocks: Map<Seq<char>, Seq<u8>>, id: Seq<char>) -> Option<Seq<u8>> {
    if blocks.dom().contains(id) && id_of(blocks[id]) == id {
        Some(blocks[id])
    } else {
        None
    }
}

impl Default for ContentStore {
    fn default() -> (s: Self)
        ensures
            s.wf(),
            s@ == Map::<Seq<char>, Seq<u8>>::empty(),
    {
        ContentStore::new()
    }
}

impl ContentStore {
    /// Every identifier is held once, whatever bytes stand under it.
    pub closed spec fn kept(&self) -> bool {
        self.blocks.wf()
    }

    /// Every block is held once, under its own identifier.
    pub open spec fn wf(&self) -> bool {
        self.kept() && sound(self@)
    }

    /// Every block of a store is held under its own identifier.
    pub proof fn law_sound(&self)
        requires
            self.wf(),
        ensures
            sound(self@),
    {
    }

    pub fn new() -> (s: Self)
        ensures
            s.wf(),
            s@ == Map::<Seq<char>, Seq<u8>>::empty(),
    {
        let s = ContentStore { blocks: StringMap::new() };
        assert(s@ =~= Map::<Seq<char>, Seq<u8>>::empty());
        s
    }

    /// Number of blocks currently cached.
    pub fn len(&self) -> (n: usize)
        requires
            self.kept(),
        ensures
            self@.dom().finite(),
            n == self@.dom().len(),
    {
        proof {
            self.blocks.lemma_count();
            assert(self@.dom() =~= self.blocks@.dom());
        }
        self.blocks.len()
    }

    pub fn is_empty(&self) -> (b: bool)
        requires
            self.kept(),
        ensures
            b == (self@ == Map::<Seq<char>, Seq<u8>>::empty()),
    {
        let n = self.len();
        proof {
            if n == 0 {
                assert(self@.dom() =~= Set::<Seq<char>>::empty());
                assert(self@ =~= Map::<Seq<char>, Seq<u8>>::empty());
            } else {
                assert(self@.dom().len() != 0);
            }
        }
        n == 0
    }

    /// Store `bytes`, returning their content id. Idempotent.
    pub fn put(&mut self, bytes: &[u8]) -> (id: ContentId)
        requires
            old(self).kept(),
        ensures
            final(self).kept(),
            old(self).wf() ==> final(self).wf(),
            id@ == id_of(bytes@),
            final(self)@ == after_put(old(self)@, bytes@),
    {
        let id = digest(bytes);
        if !self.blocks.contains_key(&id.0) {
            let ghost was = self@;
            let block = vstd::slice::slice_to_vec(bytes);
            assert(block@ =~= bytes@);
            self.blocks.insert(id.0.clone(), block);
            assert(self@ =~= was.insert(id@, bytes@));
        }
        id
    }

    /// Resolve `id` to its bytes if present. (The id is already bound to the bytes at insert time,
    /// so this is integrity-preserving.)
    pub fn get(&self, id: &ContentId) -> (r: Option<&[u8]>)
        requires
            self.kept(),
        ensures
            match r {
                Some(b) => self@.dom().contains(id@) && b@ == self@[id@],
                None => !self@.dom().contains(id@),
            },
    {
        match self.blocks.get(&id.0) {
            Some(b) => Some(b.as_slice()),
            None => None,
        }
    }

    /// Integrity-checked fetch: returns the bytes only if they hash to `id`. Returns `None` if
    /// absent or if the stored block fails to verify (which would indicate on-disk corruption or a
    /// substitution attack).
    pub fn get_verified(&self, id: &ContentId) -> (r: Option<Vec<u8>>)
        requires
            self.kept(),
        ensures
            r.deep_view() == verified_block(self@, id@),
    {
        match self.get(id) {
            Some(b) => {
                if Self::verify(id, b) {
                    let block = vstd::slice::slice_to_vec(b);
                    assert(block.deep_view() =~= b@);
                    Some(block)
                } else {
                    None
                }
            },
            None => None,
        }
    }

    /// Remove a block from the local store.
    pub fn remove(&mut self, id: &ContentId) -> (b: bool)
        requires
            old(self).kept(),
        ensures
            final(self).kept(),
            old(self).wf() ==> final(self).wf(),
            final(self)@ == old(self)@.remove(id@),
            b == old(self)@.dom().contains(id@),
    {
        let ghost was = self@;
        let r = self.blocks.remove(&id.0);
        assert(self@ =~= was.remove(id@));
        r.is_some()
    }

    /// Verify that `bytes` match the expected `id` without storing them.
    pub fn verify(id: &ContentId, bytes: &[u8]) -> (b: bool)
        ensures
            b == (id_of(bytes@) == id@),
    {
        str_eq(&digest(bytes).0, &id.0)
    }
}

/// A block that does not hash to its identifier is never given out as verified, whatever the store
/// holds; a block that does is.
pub proof fn law_corruption_is_noticed(blocks: Map<Seq<char>, Seq<u8>>, id: Seq<char>)
    ensures
        verified_block(blocks, id) matches Some(b) ==> id_of(b) == id && blocks[id] == b,
        blocks.dom().contains(id) && id_of(blocks[id]) != id ==> verified_block(blocks, id) is None,
        blocks.dom().contains(id) && id_of(blocks[id]) == id ==> verified_block(blocks, id) == Some(
            blocks[id],
        ),
{
}

/// Putting the same bytes twice is putting them once.
pub proof fn law_put_is_idempotent(blocks: Map<Seq<char>, Seq<u8>>, bytes: Seq<u8>)
    ensures
        after_put(after_put(blocks, bytes), bytes) == after_put(blocks, bytes),
{
}

/// What was put is given back under its identifier, verified; other blocks stay; nothing stays
/// after a removal. Two different blocks with one digest are left out: the first one stays.
pub proof fn law_put_is_given_back(
    blocks: Map<Seq<char>, Seq<u8>>,
    bytes: Seq<u8>,
    other: Seq<char>,
)
    requires
        sound(blocks),
        blocks.dom().contains(id_of(bytes)) ==> blocks[id_of(bytes)] == bytes,
        other != id_of(bytes),
    ensures
        verified_block(after_put(blocks, bytes), id_of(bytes)) == Some(bytes),
        verified_block(after_put(blocks, bytes), other) == verified_block(blocks, other),
        verified_block(blocks.remove(id_of(bytes)), id_of(bytes)) is None,
        sound(after_put(blocks, bytes)),
        sound(blocks.remove(other)),
{
    let after = after_put(blocks, bytes);
    assert forall|id: Seq<char>| #[trigger] after.dom().contains(id) implies id_of(after[id])
        == id by {
        if id != id_of(bytes) {
            assert(blocks.dom().contains(id));
        }
    }
    let less = blocks.remove(other);
    assert forall|id: Seq<char>| #[trigger] less.dom().contains(id) implies id_of(less[id]) == id by {
        assert(blocks.dom().contains(id));
    }
}

/// A read never returns a block that does not hash to the identifier asked for, and a sound store
/// never refuses a block that it holds.
pub proof fn law_reads_are_verified(blocks: Map<Seq<char>, Seq<u8>>, id: Seq<char>)
    ensures
        verified_block(blocks, id) matches Some(b) ==> id_of(b) == id,
        sound(blocks) && blocks.dom().contains(id) ==> verified_block(blocks, id) == Some(
            blocks[id],
        ),
{
}

} // verus!
