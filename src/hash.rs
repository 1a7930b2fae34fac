use vstd::prelude::*;

verus! {

/// What SHA-256 yields on a byte string.
pub uninterp spec fn sha256_of(data: Seq<u8>) -> Seq<u8>;

/// Relies on sha2::Sha256::digest: the SHA-256 digest of `data`, which
/// depends on the bytes alone.
#[verifier::external_body]
fn sha256(data: &[u8]) -> (r: [u8; 32])
    ensures
        r@ == sha256_of(data@),
{
    <sha2::Sha256 as sha2::Digest>::digest(data).into()
}

/// A 32-byte digest.
#[derive(Clone, Copy, Debug)]
pub struct Hash {
    pub value: [u8; 32],
}

impl View for Hash {
    type V = Seq<u8>;

    open spec fn view(&self) -> Seq<u8> {
        self.value@
    }
}

/// A 64-byte signature, carried as opaque bytes.
#[derive(Clone, Copy, Debug)]
pub struct Signature {
    pub value: [u8; 64],
}

impl View for Signature {
    type V = Seq<u8>;

    open spec fn view(&self) -> Seq<u8> {
        self.value@
    }
}

/// Lexicographic `a <= b` on byte strings.
pub open spec fn bytes_le(a: Seq<u8>, b: Seq<u8>) -> bool {
    ||| a == b
    ||| (a.len() < b.len() && a == b.subrange(0, a.len() as int))
    ||| exists|k: int|
        0 <= k < a.len() && k < b.len() && a[k] < b[k] && (forall|j: int|
            0 <= j < k ==> #[trigger] a[j] == b[j])
}

/// The parent of two tree nodes: the digest of the smaller one followed by
/// the larger one, so that the order of the pair does not matter.
pub open spec fn pair_hash(a: Seq<u8>, b: Seq<u8>) -> Seq<u8> {
    if bytes_le(a, b) {
        sha256_of(a + b)
    } else {
        sha256_of(b + a)
    }
}

/// The digest of `a` followed by `b`.
pub open spec fn concat_hash(a: Seq<u8>, b: Seq<u8>) -> Seq<u8> {
    sha256_of(a + b)
}

/// Any two byte strings are ordered one way or the other, and both ways
/// only when they are equal.
pub proof fn lemma_bytes_le_total(a: Seq<u8>, b: Seq<u8>)
    ensures
        bytes_le(a, b) || bytes_le(b, a),
        bytes_le(a, b) && bytes_le(b, a) ==> a == b,
{
    let m = if a.len() < b.len() {
        a.len() as int
    } else {
        b.len() as int
    };
    if exists|k: int| 0 <= k < m && a[k] != b[k] {
        let k = choose|k: int| 0 <= k < m && a[k] != b[k];
        let k0 = first_difference(a, b, k);
        if a[k0] < b[k0] {
            assert(bytes_le(a, b));
        } else {
            assert(bytes_le(b, a));
        }
        assert(a != b);
        assert(!(a.len() < b.len() && a == b.subrange(0, a.len() as int))) by {
            if a.len() < b.len() && a == b.subrange(0, a.len() as int) {
                assert(a[k0] == b.subrange(0, a.len() as int)[k0]);
            }
        }
        assert(!(b.len() < a.len() && b == a.subrange(0, b.len() as int))) by {
            if b.len() < a.len() && b == a.subrange(0, b.len() as int) {
                assert(b[k0] == a.subrange(0, b.len() as int)[k0]);
            }
        }
        if bytes_le(a, b) && bytes_le(b, a) {
            let k1 = choose|k1: int|
                0 <= k1 < a.len() && k1 < b.len() && a[k1] < b[k1] && (forall|j: int|
                    0 <= j < k1 ==> #[trigger] a[j] == b[j]);
            let k2 = choose|k2: int|
                0 <= k2 < b.len() && k2 < a.len() && b[k2] < a[k2] && (forall|j: int|
                    0 <= j < k2 ==> #[trigger] b[j] == a[j]);
            if k1 < k2 {
                assert(b[k1] == a[k1]);
            } else if k2 < k1 {
                assert(a[k2] == b[k2]);
            }
        }
    } else {
        if a.len() < b.len() {
            assert(a =~= b.subrange(0, a.len() as int));
        } else if b.len() < a.len() {
            assert(b =~= a.subrange(0, b.len() as int));
        } else {
            assert(a =~= b);
        }
        if bytes_le(a, b) && bytes_le(b, a) && a != b {
            if a.len() < b.len() {
                let k2 = choose|k2: int|
                    0 <= k2 < b.len() && k2 < a.len() && b[k2] < a[k2] && (forall|j: int|
                        0 <= j < k2 ==> #[trigger] b[j] == a[j]);
                assert(a[k2] == b[k2]);
            } else if b.len() < a.len() {
                let k1 = choose|k1: int|
                    0 <= k1 < a.len() && k1 < b.len() && a[k1] < b[k1] && (forall|j: int|
                        0 <= j < k1 ==> #[trigger] a[j] == b[j]);
                assert(a[k1] == b[k1]);
            }
        }
    }
}

proof fn first_difference(a: Seq<u8>, b: Seq<u8>, k: int) -> (r: int)
    requires
        0 <= k < a.len(),
        k < b.len(),
        a[k] != b[k],
    ensures
        0 <= r <= k,
        a[r] != b[r],
        forall|j: int| 0 <= j < r ==> #[trigger] a[j] == b[j],
    decreases k,
{
    if exists|j: int| 0 <= j < k && a[j] != b[j] {
        let j = choose|j: int| 0 <= j < k && a[j] != b[j];
        first_difference(a, b, j)
    } else {
        k
    }
}

/// The order of the two children does not change their parent.
pub proof fn lemma_pair_hash_symmetric(a: Seq<u8>, b: Seq<u8>)
    ensures
        pair_hash(a, b) == pair_hash(b, a),
{
    lemma_bytes_le_total(a, b);
}

/// `a <= b` in lexicographic order.
fn le_bytes(a: &[u8; 32], b: &[u8; 32]) -> (r: bool)
    ensures
        r == bytes_le(a@, b@),
{
    let mut i: usize = 0;
    while i < 32
        invariant
            0 <= i <= 32,
            forall|j: int| 0 <= j < i ==> #[trigger] a@[j] == b@[j],
        decreases 32 - i,
    {
        if a[i] != b[i] {
            if a[i] < b[i] {
                assert(bytes_le(a@, b@));
                return true;
            } else {
                proof {
                    assert(a@ != b@);
                    if bytes_le(a@, b@) {
                        let k = choose|k: int|
                            0 <= k < a@.len() && k < b@.len() && a@[k] < b@[k] && (forall|j: int|
                                0 <= j < k ==> #[trigger] a@[j] == b@[j]);
                        if k > i {
                            assert(a@[i as int] == b@[i as int]);
                        }
                    }
                }
                return false;
            }
        }
        i = i + 1;
    }
    assert(a@ =~= b@);
    true
}

impl Hash {
    /// The SHA-256 digest of `data`.
    pub fn new(data: &[u8]) -> (r: Hash)
        ensures
            r@ == sha256_of(data@),
    {
        Hash { value: sha256(data) }
    }

    /// The bytes of the digest.
    pub fn to_bytes(&self) -> (r: [u8; 32])
        ensures
            r@ == self@,
    {
        self.value
    }

    /// Whether two digests hold the same bytes.
    pub fn same_as(&self, other: &Hash) -> (r: bool)
        ensures
            r == (self@ == other@),
    {
        let mut i: usize = 0;
        while i < 32
            invariant
                0 <= i <= 32,
                forall|j: int| 0 <= j < i ==> #[trigger] self@[j] == other@[j],
            decreases 32 - i,
        {
            if self.value[i] != other.value[i] {
                return false;
            }
            i = i + 1;
        }
        assert(self@ =~= other@);
        true
    }
}

/// The digest of `a` followed by `b`.
pub fn hash_concat(a: &[u8], b: &[u8]) -> (r: Hash)
    ensures
        r@ == concat_hash(a@, b@),
{
    let mut buf: Vec<u8> = Vec::new();
    buf.extend_from_slice(a);
    buf.extend_from_slice(b);
    assert(buf@ =~= a@ + b@);
    Hash::new(buf.as_slice())
}

/// The parent of two tree nodes, independent of their order.
pub fn hash_pair(a: &Hash, b: &Hash) -> (r: Hash)
    ensures
        r@ == pair_hash(a@, b@),
{
    if le_bytes(&a.value, &b.value) {
        hash_concat(&a.value, &b.value)
    } else {
        hash_concat(&b.value, &a.value)
    }
}

} // verus!
