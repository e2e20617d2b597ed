//! Remembers which numbers were seen, so that each is reported once.

use vstd::prelude::*;

verus! {

/// The most bytes that a key holds.
pub const KEY_LEN: usize = 16;

/// A number, filled up with zero bytes to the length of a key.
pub open spec fn key_of(pan: Seq<u8>) -> Seq<u8> {
    Seq::new(
        KEY_LEN as nat,
        |i: int|
            if i < pan.len() {
                pan[i]
            } else {
                0
            },
    )
}

/// The key under which a number is remembered.
pub fn pan_key(pan: &[u8]) -> (r: [u8; 16])
    requires
        pan@.len() <= KEY_LEN,
    ensures
        r@ == key_of(pan@),
{
    let mut k: [u8; 16] = [0u8; 16];
    let mut i: usize = 0;
    while i < pan.len()
        invariant
            i <= pan@.len() <= KEY_LEN,
            forall|j: int| 0 <= j < i ==> #[trigger] k@[j] == pan@[j],
            forall|j: int| i <= j < KEY_LEN ==> #[trigger] k@[j] == 0,
        decreases pan@.len() - i,
    {
        k[i] = pan[i];
        i += 1;
    }
    proof {
        assert(k@ =~= key_of(pan@));
    }
    k
}

/// A set of keys.
pub struct DedupSet {
    keys: Vec<[u8; 16]>,
}

impl View for DedupSet {
    type V = Set<Seq<u8>>;

    closed spec fn view(&self) -> Set<Seq<u8>> {
        Set::new(|key: Seq<u8>| exists|i: int| 0 <= i < self.keys@.len() && #[trigger] self.keys@[i]@ == key)
    }
}

impl DedupSet {
    /// Nothing is remembered twice.
    pub closed spec fn wf(self) -> bool {
        forall|i: int, j: int|
            0 <= i < j < self.keys@.len() ==> #[trigger] self.keys@[i]@ != #[trigger] self.keys@[j]@
    }

    pub fn new() -> (r: Self)
        ensures
            r.wf(),
            r@ == Set::<Seq<u8>>::empty(),
    {
        let r = DedupSet { keys: Vec::new() };
        proof {
            assert(r@ =~= Set::<Seq<u8>>::empty());
        }
        r
    }

    /// Remembers `key`; true if it is new.
    pub fn insert(&mut self, key: [u8; 16]) -> (r: bool)
        requires
            old(self).wf(),
        ensures
            final(self).wf(),
            r == !old(self)@.contains(key@),
            final(self)@ == old(self)@.insert(key@),
    {
        let n: usize = self.keys.len();
        let mut i: usize = 0;
        while i < n
            invariant
                i <= n == self.keys@.len(),
                *self == *old(self),
                old(self).wf(),
                forall|j: int| 0 <= j < i ==> #[trigger] self.keys@[j]@ != key@,
            decreases n - i,
        {
            if same_key(&self.keys[i], &key) {
                proof {
                    assert(self.keys@[i as int]@ == key@);
                    assert(self@ =~= self@.insert(key@));
                }
                return false;
            }
            i += 1;
        }
        let ghost before = self.keys@;
        self.keys.push(key);
        proof {
            assert(forall|j: int| 0 <= j < n ==> self.keys@[j] == #[trigger] before[j]);
            assert(self.keys@[n as int] == key);
            assert forall|k: Seq<u8>| #[trigger] self@.contains(k) <==> old(self)@.insert(
                key@,
            ).contains(k) by {
                if self@.contains(k) {
                    let j = choose|j: int| 0 <= j < self.keys@.len() && #[trigger] self.keys@[j]@ == k;
                    if j < n {
                        assert(before[j]@ == k);
                    }
                }
                if old(self)@.contains(k) {
                    let j = choose|j: int| 0 <= j < before.len() && #[trigger] before[j]@ == k;
                    assert(self.keys@[j]@ == k);
                }
                if k == key@ {
                    assert(self.keys@[n as int]@ == k);
                }
            }
            assert(self@ =~= old(self)@.insert(key@));
            assert(!old(self)@.contains(key@));
        }
        true
    }
}

fn same_key(a: &[u8; 16], b: &[u8; 16]) -> (r: bool)
    ensures
        r == (a@ == b@),
{
    let mut i: usize = 0;
    while i < KEY_LEN
        invariant
            i <= KEY_LEN,
            forall|j: int| 0 <= j < i ==> #[trigger] a@[j] == b@[j],
        decreases KEY_LEN - i,
    {
        if a[i] != b[i] {
            assert(a@[i as int] != b@[i as int]);
            return false;
        }
        i += 1;
    }
    proof {
        assert(a@ =~= b@);
    }
    true
}

/// Different numbers have different keys, as long as no number holds a zero byte.
pub proof fn law_keys_tell_numbers_apart(a: Seq<u8>, b: Seq<u8>)
    requires
        a.len() <= KEY_LEN,
        b.len() <= KEY_LEN,
        forall|i: int| 0 <= i < a.len() ==> #[trigger] a[i] != 0,
        forall|i: int| 0 <= i < b.len() ==> #[trigger] b[i] != 0,
        key_of(a) == key_of(b),
    ensures
        a == b,
{
    if a.len() < b.len() {
        assert(key_of(a)[a.len() as int] == 0);
        assert(key_of(b)[a.len() as int] == b[a.len() as int]);
    }
    if b.len() < a.len() {
        assert(key_of(b)[b.len() as int] == 0);
        assert(key_of(a)[b.len() as int] == a[b.len() as int]);
    }
    assert forall|i: int| 0 <= i < a.len() implies a[i] == b[i] by {
        assert(key_of(a)[i] == a[i]);
        assert(key_of(b)[i] == b[i]);
    }
    assert(a =~= b);
}

/// A key has 16 bytes: the number, and zeros behind it.
pub proof fn law_key_starts_with_the_number(pan: Seq<u8>, i: int)
    requires
        pan.len() <= 16,
        0 <= i < 16,
    ensures
        key_of(pan).len() == 16,
        key_of(pan).take(pan.len() as int) == pan,
        i >= pan.len() ==> key_of(pan)[i] == 0,
{
    assert(key_of(pan).take(pan.len() as int) =~= pan);
}

} // verus!
