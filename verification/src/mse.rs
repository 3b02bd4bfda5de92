use num_bigint::BigUint;
use vstd::prelude::*;

use crate::sha1::{sha1, sha1_digest};

verus! {

/// Whether the payload after an MSE handshake is plaintext or RC4.
#[derive(Clone, Copy, Debug, PartialEq, Eq, Structural)]
pub enum CryptoMode {
    Plaintext,
    Rc4,
}

// ---------------------------------------------------------------------
// RC4
// ---------------------------------------------------------------------

/// `a + b` modulo 256.
pub open spec fn add8(a: u8, b: u8) -> u8 {
    ((a + b) % 256) as u8
}

/// `s` with positions `a` and `b` exchanged.
pub open spec fn swap_at(s: Seq<u8>, a: int, b: int) -> Seq<u8> {
    s.update(a, s[b]).update(b, s[a])
}

/// The RC4 state: the permutation and the two indices.
pub struct Rc4Model {
    pub s: Seq<u8>,
    pub i: u8,
    pub j: u8,
}

/// The first `n` steps of the RC4 key schedule.
pub open spec fn ksa(key: Seq<u8>, n: nat) -> (Seq<u8>, u8)
    decreases n,
{
    if n == 0 {
        (Seq::new(256, |i: int| i as u8), 0u8)
    } else {
        let (s, j) = ksa(key, (n - 1) as nat);
        let idx = (n - 1) as int;
        let j2 = add8(add8(j, s[idx]), key[idx % (key.len() as int)]);
        (swap_at(s, idx, j2 as int), j2)
    }
}

/// The RC4 state after the key schedule.
pub open spec fn rc4_init(key: Seq<u8>) -> Rc4Model {
    Rc4Model { s: ksa(key, 256).0, i: 0, j: 0 }
}

/// One step of the RC4 generator: the next state and keystream byte.
pub open spec fn prga_next(m: Rc4Model) -> (Rc4Model, u8) {
    let i = add8(m.i, 1);
    let j = add8(m.j, m.s[i as int]);
    let s = swap_at(m.s, i as int, j as int);
    (Rc4Model { s, i, j }, s[add8(s[i as int], s[j as int]) as int])
}

/// The next `n` keystream bytes and the state after them.
pub open spec fn keystream(m: Rc4Model, n: nat) -> (Seq<u8>, Rc4Model)
    decreases n,
{
    if n == 0 {
        (seq![], m)
    } else {
        let (ks, m1) = keystream(m, (n - 1) as nat);
        let (m2, k) = prga_next(m1);
        (ks.push(k), m2)
    }
}

/// Byte-wise exclusive or.
pub open spec fn xor_seq(a: Seq<u8>, b: Seq<u8>) -> Seq<u8> {
    Seq::new(a.len(), |i: int| a[i] ^ b[i])
}

/// The RC4 stream cipher.
#[derive(Clone)]
pub struct Rc4 {
    s: [u8; 256],
    i: u8,
    j: u8,
}

impl View for Rc4 {
    type V = Rc4Model;

    closed spec fn view(&self) -> Rc4Model {
        Rc4Model { s: self.s@, i: self.i, j: self.j }
    }
}

fn add8_exec(a: u8, b: u8) -> (r: u8)
    ensures
        r == add8(a, b),
{
    a.wrapping_add(b)
}

proof fn lemma_keystream_step(m: Rc4Model, n: nat)
    ensures
        keystream(m, n + 1).0 == keystream(m, n).0.push(prga_next(keystream(m, n).1).1),
        keystream(m, n + 1).1 == prga_next(keystream(m, n).1).0,
{
}

impl Rc4 {
    /// The generator keyed with `key` (the RC4 key schedule).
    pub fn new(key: &[u8]) -> (r: Self)
        requires
            key@.len() > 0,
        ensures
            r@ == rc4_init(key@),
    {
        let mut s = [0u8; 256];
        let mut k: usize = 0;
        while k < 256
            invariant
                k <= 256,
                s@.len() == 256,
                forall|x: int| 0 <= x < k ==> s@[x] == x as u8,
            decreases 256 - k,
        {
            s[k] = k as u8;
            k = k + 1;
        }
        assert(s@ =~= ksa(key@, 0).0);
        let mut j: u8 = 0;
        let mut idx: usize = 0;
        while idx < 256
            invariant
                idx <= 256,
                key@.len() > 0,
                s@.len() == 256,
                (s@, j) == ksa(key@, idx as nat),
            decreases 256 - idx,
        {
            let ghost prev = s@;
            j = add8_exec(add8_exec(j, s[idx]), key[idx % key.len()]);
            let a = s[idx];
            let b = s[j as usize];
            s[idx] = b;
            s[j as usize] = a;
            assert(s@ =~= swap_at(prev, idx as int, j as int));
            idx = idx + 1;
        }
        Rc4 { s, i: 0, j: 0 }
    }

    /// Exclusive-ors `data` with the next keystream bytes.
    pub fn apply(&mut self, data: &mut [u8])
        requires
            old(self)@.s.len() == 256,
        ensures
            final(data)@ == xor_seq(old(data)@, keystream(old(self)@, old(data)@.len()).0),
            final(self)@ == keystream(old(self)@, old(data)@.len()).1,
            final(self)@.s.len() == 256,
    {
        let ghost start = self@;
        let ghost input = data@;
        let n = data.len();
        let mut k: usize = 0;
        while k < n
            invariant
                k <= n,
                n == data@.len(),
                n == input.len(),
                self@.s.len() == 256,
                self@ == keystream(start, k as nat).1,
                keystream(start, k as nat).0.len() == k,
                forall|x: int| 0 <= x < k ==> data@[x] == input[x] ^ keystream(start, k as nat).0[x],
                forall|x: int| k <= x < n ==> data@[x] == input[x],
            decreases n - k,
        {
            proof {
                lemma_keystream_step(start, k as nat);
            }
            let ghost before = self@;
            let i = add8_exec(self.i, 1);
            let j = add8_exec(self.j, self.s[i as usize]);
            let a = self.s[i as usize];
            let b = self.s[j as usize];
            self.s[i as usize] = b;
            self.s[j as usize] = a;
            self.i = i;
            self.j = j;
            assert(self.s@ =~= swap_at(before.s, i as int, j as int));
            let idx = add8_exec(self.s[i as usize], self.s[j as usize]);
            let key_byte = self.s[idx as usize];
            assert(prga_next(before) == (self@, key_byte));
            data[k] = data[k] ^ key_byte;
            k = k + 1;
        }
        assert(data@ =~= xor_seq(input, keystream(start, n as nat).0));
    }

    /// Advances the generator by `count` bytes of keystream.
    pub fn discard(&mut self, count: usize)
        requires
            old(self)@.s.len() == 256,
        ensures
            final(self)@ == keystream(old(self)@, count as nat).1,
            final(self)@.s.len() == 256,
    {
        let mut buf: Vec<u8> = Vec::new();
        let mut k: usize = 0;
        while k < count
            invariant
                k <= count,
                buf@.len() == k,
            decreases count - k,
        {
            buf.push(0);
            k = k + 1;
        }
        self.apply(buf.as_mut_slice());
    }
}

/// The keystream offsets both directions of an MSE stream discard.
pub const RC4_DISCARD: usize = 1024;

/// The pair of RC4 generators of an encrypted connection.
#[derive(Clone)]
pub struct CipherState {
    enc: Rc4,
    dec: Rc4,
}

impl CipherState {
    pub closed spec fn enc_view(&self) -> Rc4Model {
        self.enc@
    }

    pub closed spec fn dec_view(&self) -> Rc4Model {
        self.dec@
    }

    /// Both generators hold a 256-byte permutation.
    pub closed spec fn wf(&self) -> bool {
        self.enc@.s.len() == 256 && self.dec@.s.len() == 256
    }

    /// Generators keyed with `enc_key` and `dec_key`, each past the first
    /// 1024 keystream bytes.
    pub fn new(enc_key: &[u8], dec_key: &[u8]) -> (r: Self)
        requires
            enc_key@.len() > 0,
            dec_key@.len() > 0,
        ensures
            r.wf(),
            r.enc_view() == keystream(rc4_init(enc_key@), 1024).1,
            r.dec_view() == keystream(rc4_init(dec_key@), 1024).1,
    {
        let mut enc = Rc4::new(enc_key);
        let mut dec = Rc4::new(dec_key);
        proof {
            lemma_ksa_len(enc_key@, 256);
            lemma_ksa_len(dec_key@, 256);
        }
        enc.discard(RC4_DISCARD);
        dec.discard(RC4_DISCARD);
        CipherState { enc, dec }
    }

    /// A cipher state from generators positioned by the caller.
    pub fn from_parts(enc: Rc4, dec: Rc4) -> (r: Self)
        requires
            enc@.s.len() == 256,
            dec@.s.len() == 256,
        ensures
            r.wf(),
            r.enc_view() == enc@,
            r.dec_view() == dec@,
    {
        CipherState { enc, dec }
    }

    /// Encrypts outgoing bytes in place.
    pub fn encrypt(&mut self, data: &mut [u8])
        requires
            old(self).wf(),
        ensures
            final(self).wf(),
            final(data)@ == xor_seq(old(data)@, keystream(old(self).enc_view(), old(data)@.len()).0),
            final(self).enc_view() == keystream(old(self).enc_view(), old(data)@.len()).1,
            final(self).dec_view() == old(self).dec_view(),
    {
        self.enc.apply(data);
    }

    /// Decrypts incoming bytes in place.
    pub fn decrypt(&mut self, data: &mut [u8])
        requires
            old(self).wf(),
        ensures
            final(self).wf(),
            final(data)@ == xor_seq(old(data)@, keystream(old(self).dec_view(), old(data)@.len()).0),
            final(self).dec_view() == keystream(old(self).dec_view(), old(data)@.len()).1,
            final(self).enc_view() == old(self).enc_view(),
    {
        self.dec.apply(data);
    }
}

proof fn lemma_ksa_len(key: Seq<u8>, n: nat)
    requires
        n <= 256,
    ensures
        ksa(key, n).0.len() == 256,
    decreases n,
{
    if n > 0 {
        lemma_ksa_len(key, (n - 1) as nat);
    }
}

proof fn lemma_keystream_len(m: Rc4Model, n: nat)
    ensures
        keystream(m, n).0.len() == n,
    decreases n,
{
    if n > 0 {
        lemma_keystream_len(m, (n - 1) as nat);
    }
}

/// Decrypting with a generator in the same state as the one that
/// encrypted gives back the plaintext: both sides of a connection keyed
/// alike stay in step.
pub proof fn lemma_cipher_roundtrip(m: Rc4Model, data: Seq<u8>)
    ensures
        xor_seq(xor_seq(data, keystream(m, data.len()).0), keystream(m, data.len()).0) == data,
{
    let ks = keystream(m, data.len()).0;
    lemma_keystream_len(m, data.len());
    assert forall|i: int| 0 <= i < data.len() implies (data[i] ^ ks[i]) ^ ks[i] == data[i] by {
        let a = data[i];
        let b = ks[i];
        assert((a ^ b) ^ b == a) by (bit_vector);
    }
    assert(xor_seq(xor_seq(data, ks), ks) =~= data);
}

} // verus!

verus! {

// ---------------------------------------------------------------------
// Handshake helpers
// ---------------------------------------------------------------------

/// Whether `pattern` occurs in `data` at `off`.
pub open spec fn occurs_at(data: Seq<u8>, pattern: Seq<u8>, off: int) -> bool {
    &&& 0 <= off
    &&& off + pattern.len() <= data.len()
    &&& data.subrange(off, off + pattern.len()) == pattern
}

/// The offsets `find_sync_pattern` searches: from `search_start` to the
/// last place the pattern fits, but not past `max_offset`.
pub open spec fn in_sync_window(data: Seq<u8>, pattern: Seq<u8>, search_start: int, max_offset: int, off: int) -> bool {
    &&& pattern.len() > 0
    &&& search_start <= off
    &&& off <= data.len() - pattern.len()
    &&& off <= max_offset
}

fn bytes_equal_at(data: &[u8], pattern: &[u8], off: usize) -> (r: bool)
    requires
        off + pattern@.len() <= data.len(),
    ensures
        r == (data@.subrange(off as int, off + pattern@.len()) == pattern@),
{
    let mut k: usize = 0;
    while k < pattern.len()
        invariant
            k <= pattern@.len(),
            off + pattern@.len() <= data.len(),
            forall|x: int| 0 <= x < k ==> data@[off + x] == pattern@[x],
        decreases pattern@.len() - k,
    {
        if data[off + k] != pattern[k] {
            assert(data@.subrange(off as int, off + pattern@.len())[k as int] != pattern@[k as int]);
            return false;
        }
        k = k + 1;
    }
    assert(data@.subrange(off as int, off + pattern@.len()) =~= pattern@);
    true
}

/// The first offset in the search window (see `in_sync_window`) where
/// `pattern` occurs, so that a peer cannot pad past the limit.
pub fn find_sync_pattern(data: &[u8], pattern: &[u8], search_start: usize, max_offset: usize) -> (r:
    Option<usize>)
    ensures
        r is None <==> !exists|off: int|
            #[trigger] in_sync_window(data@, pattern@, search_start as int, max_offset as int, off)
                && occurs_at(data@, pattern@, off),
        r matches Some(o) ==> in_sync_window(data@, pattern@, search_start as int, max_offset as int, o as int)
            && occurs_at(data@, pattern@, o as int) && forall|off: int|
            search_start <= off < o ==> !occurs_at(data@, pattern@, off),
{
    if pattern.len() == 0 || data.len() < pattern.len() {
        return None;
    }
    let fit = data.len() - pattern.len();
    let last = if fit < max_offset {
        fit
    } else {
        max_offset
    };
    if search_start > last {
        return None;
    }
    let mut off: usize = search_start;
    while off <= last
        invariant
            search_start <= off <= last + 1,
            last <= data.len() - pattern@.len(),
            last <= max_offset,
            pattern@.len() > 0,
            forall|x: int| search_start <= x < off ==> !occurs_at(data@, pattern@, x),
        decreases last + 1 - off,
    {
        if bytes_equal_at(data, pattern, off) {
            assert(in_sync_window(data@, pattern@, search_start as int, max_offset as int, off as int)
                && occurs_at(data@, pattern@, off as int));
            return Some(off);
        }
        off = off + 1;
    }
    None
}

/// The SHA-1 of `prefix` followed by `data`.
pub open spec fn spec_sha1_bytes(prefix: Seq<u8>, data: Seq<u8>) -> Seq<u8> {
    sha1_digest(prefix + data)
}

/// SHA-1 over `prefix` then `data`.
pub fn sha1_bytes(prefix: &[u8], data: &[u8]) -> (r: [u8; 20])
    ensures
        r@ == spec_sha1_bytes(prefix@, data@),
{
    let mut buf: Vec<u8> = Vec::new();
    let mut i: usize = 0;
    while i < prefix.len()
        invariant
            i <= prefix@.len(),
            buf@ == prefix@.subrange(0, i as int),
        decreases prefix@.len() - i,
    {
        buf.push(prefix[i]);
        i = i + 1;
        assert(buf@ =~= prefix@.subrange(0, i as int));
    }
    let mut k: usize = 0;
    while k < data.len()
        invariant
            k <= data@.len(),
            buf@ == prefix@ + data@.subrange(0, k as int),
        decreases data@.len() - k,
    {
        buf.push(data[k]);
        k = k + 1;
        assert(buf@ =~= prefix@ + data@.subrange(0, k as int));
    }
    assert(buf@ =~= prefix@ + data@);
    sha1(buf.as_slice())
}

/// `req2` as bytes.
pub open spec fn req2() -> Seq<u8> {
    seq![114u8, 101, 113, 50]
}

/// The info hash whose `HASH('req2', info_hash)` is `target`, the first
/// such of the candidates.
pub fn find_info_hash(info_hashes: &[[u8; 20]], target: &[u8; 20]) -> (r: Option<[u8; 20]>)
    ensures
        r is None <==> !exists|k: int|
            0 <= k < info_hashes@.len() && spec_sha1_bytes(req2(), (#[trigger] info_hashes@[k])@)
                == target@,
        r matches Some(h) ==> exists|k: int|
            0 <= k < info_hashes@.len() && info_hashes@[k] == h && spec_sha1_bytes(req2(), h@)
                == target@ && forall|j: int|
                0 <= j < k ==> spec_sha1_bytes(req2(), (#[trigger] info_hashes@[j])@) != target@,
{
    let tag: [u8; 4] = [114, 101, 113, 50];
    assert(tag@ =~= req2());
    let mut k: usize = 0;
    while k < info_hashes.len()
        invariant
            k <= info_hashes@.len(),
            tag@ == req2(),
            forall|j: int|
                0 <= j < k ==> spec_sha1_bytes(req2(), (#[trigger] info_hashes@[j])@) != target@,
        decreases info_hashes@.len() - k,
    {
        let digest = sha1_bytes(tag.as_slice(), info_hashes[k].as_slice());
        let mut same = true;
        let mut x: usize = 0;
        while x < 20
            invariant
                x <= 20,
                same == forall|y: int| 0 <= y < x ==> digest@[y] == target@[y],
            decreases 20 - x,
        {
            if digest[x] != target[x] {
                same = false;
            }
            x = x + 1;
        }
        if same {
            assert(digest@ =~= target@);
            return Some(info_hashes[k]);
        }
        assert(digest@ != target@ ==> true);
        assert(!(digest@ =~= target@)) by {
            let y = choose|y: int| 0 <= y < 20 && digest@[y] != target@[y];
        }
        k = k + 1;
    }
    None
}

/// The bytes of `a` exclusive-or `b`, over the first 20.
pub fn xor_hash(a: &[u8], b: &[u8]) -> (r: [u8; 20])
    requires
        a@.len() >= 20,
        b@.len() >= 20,
    ensures
        forall|i: int| 0 <= i < 20 ==> r@[i] == a@[i] ^ b@[i],
{
    let mut out = [0u8; 20];
    let mut i: usize = 0;
    while i < 20
        invariant
            i <= 20,
            a@.len() >= 20,
            b@.len() >= 20,
            out@.len() == 20,
            forall|x: int| 0 <= x < i ==> out@[x] == a@[x] ^ b@[x],
        decreases 20 - i,
    {
        out[i] = a[i] ^ b[i];
        i = i + 1;
    }
    out
}

pub open spec fn key_a_tag() -> Seq<u8> {
    seq![107u8, 101, 121, 65]
}

pub open spec fn key_b_tag() -> Seq<u8> {
    seq![107u8, 101, 121, 66]
}

/// The RC4 keys of a connection: `HASH('keyA', S, SKEY)` and
/// `HASH('keyB', S, SKEY)`, the initiator's sending key first.
pub open spec fn spec_derive_keys(shared: Seq<u8>, info_hash: Seq<u8>, initiator: bool) -> (Seq<u8>, Seq<u8>) {
    let a = spec_sha1_bytes(key_a_tag(), shared + info_hash);
    let b = spec_sha1_bytes(key_b_tag(), shared + info_hash);
    if initiator {
        (a, b)
    } else {
        (b, a)
    }
}

/// Derives the sending and receiving keys of one side.
pub fn derive_keys(shared: &[u8], info_hash: &[u8; 20], initiator: bool) -> (r: ([u8; 20], [u8; 20]))
    ensures
        (r.0@, r.1@) == spec_derive_keys(shared@, info_hash@, initiator),
{
    let mut material: Vec<u8> = Vec::new();
    let mut i: usize = 0;
    while i < shared.len()
        invariant
            i <= shared@.len(),
            material@ == shared@.subrange(0, i as int),
        decreases shared@.len() - i,
    {
        material.push(shared[i]);
        i = i + 1;
        assert(material@ =~= shared@.subrange(0, i as int));
    }
    let mut k: usize = 0;
    while k < 20
        invariant
            k <= 20,
            material@ == shared@ + info_hash@.subrange(0, k as int),
        decreases 20 - k,
    {
        material.push(info_hash[k]);
        k = k + 1;
        assert(material@ =~= shared@ + info_hash@.subrange(0, k as int));
    }
    assert(material@ =~= shared@ + info_hash@);
    let tag_a: [u8; 4] = [107, 101, 121, 65];
    let tag_b: [u8; 4] = [107, 101, 121, 66];
    assert(tag_a@ =~= key_a_tag());
    assert(tag_b@ =~= key_b_tag());
    let key_a = sha1_bytes(tag_a.as_slice(), material.as_slice());
    let key_b = sha1_bytes(tag_b.as_slice(), material.as_slice());
    if initiator {
        (key_a, key_b)
    } else {
        (key_b, key_a)
    }
}

/// The keys the two ends derive from one shared secret are crossed: what
/// the initiator sends with, the responder receives with, and back.
pub proof fn lemma_keys_crossed(shared: Seq<u8>, info_hash: Seq<u8>)
    ensures
        spec_derive_keys(shared, info_hash, true).0 == spec_derive_keys(shared, info_hash, false).1,
        spec_derive_keys(shared, info_hash, true).1 == spec_derive_keys(shared, info_hash, false).0,
{
}

/// `bytes` (big-endian) fitted to `len` bytes: the low `len` bytes when
/// longer, else zero-padded on the left.
pub open spec fn fixed_width(bytes: Seq<u8>, len: int) -> Seq<u8> {
    if bytes.len() > len {
        bytes.subrange(bytes.len() - len, bytes.len() as int)
    } else {
        Seq::new((len - bytes.len()) as nat, |i: int| 0u8) + bytes
    }
}

/// Fits big-endian bytes to a fixed width (see `fixed_width`).
pub fn fit_be_bytes(bytes: &[u8], len: usize) -> (r: Vec<u8>)
    ensures
        r@ == fixed_width(bytes@, len as int),
{
    let n = bytes.len();
    let mut out: Vec<u8> = Vec::new();
    if n > len {
        let mut i: usize = n - len;
        while i < n
            invariant
                n > len,
                n - len <= i <= n,
                n == bytes@.len(),
                out@ == bytes@.subrange(n - len, i as int),
            decreases n - i,
        {
            out.push(bytes[i]);
            i = i + 1;
            assert(out@ =~= bytes@.subrange(n - len, i as int));
        }
        out
    } else {
        let pad = len - n;
        let mut i: usize = 0;
        while i < pad
            invariant
                i <= pad,
                out@ == Seq::new(i as nat, |x: int| 0u8),
            decreases pad - i,
        {
            out.push(0);
            i = i + 1;
            assert(out@ =~= Seq::new(i as nat, |x: int| 0u8));
        }
        let mut k: usize = 0;
        while k < n
            invariant
                k <= n,
                n == bytes@.len(),
                out@ == Seq::new(pad as nat, |x: int| 0u8) + bytes@.subrange(0, k as int),
            decreases n - k,
        {
            out.push(bytes[k]);
            k = k + 1;
            assert(out@ =~= Seq::new(pad as nat, |x: int| 0u8) + bytes@.subrange(0, k as int));
        }
        assert(out@ =~= fixed_width(bytes@, len as int));
        out
    }
}

/// The 768-bit prime of the MSE Diffie-Hellman group, big-endian.
pub open spec fn prime_seq() -> Seq<u8> {
    seq![255u8, 255, 255, 255, 255, 255, 255, 255, 201, 15, 218, 162, 33, 104, 194, 52, 196, 198, 98, 139, 128, 220, 28, 209, 41, 2, 78, 8, 138, 103, 204, 116, 2, 11, 190, 166, 59, 19, 155, 34, 81, 74, 8, 121, 142, 52, 4, 221, 239, 149, 25, 179, 205, 58, 67, 27, 48, 43, 10, 109, 242, 95, 20, 55, 79, 225, 53, 109, 109, 81, 194, 69, 228, 133, 181, 118, 98, 94, 126, 198, 244, 76, 66, 233, 166, 58, 54, 32, 255, 255, 255, 255, 255, 255, 255, 255]
}

/// The prime of the MSE group (see `prime_seq`).
pub fn mse_prime() -> (r: [u8; 96])
    ensures
        r@ == prime_seq(),
{
    let r: [u8; 96] = [255, 255, 255, 255, 255, 255, 255, 255, 201, 15, 218, 162, 33, 104, 194, 52, 196, 198, 98, 139, 128, 220, 28, 209, 41, 2, 78, 8, 138, 103, 204, 116, 2, 11, 190, 166, 59, 19, 155, 34, 81, 74, 8, 121, 142, 52, 4, 221, 239, 149, 25, 179, 205, 58, 67, 27, 48, 43, 10, 109, 242, 95, 20, 55, 79, 225, 53, 109, 109, 81, 194, 69, 228, 133, 181, 118, 98, 94, 126, 198, 244, 76, 66, 233, 166, 58, 54, 32, 255, 255, 255, 255, 255, 255, 255, 255];
    assert(r@ =~= prime_seq());
    r
}

/// `base` raised to `exp` modulo `modulus`, all big-endian numbers, as the
/// shortest big-endian bytes (`BigUint::modpow`). A function of its
/// arguments alone.
pub uninterp spec fn dh_modpow(base: Seq<u8>, exp: Seq<u8>, modulus: Seq<u8>) -> Seq<u8>;

/// Reads the three numbers with `BigUint::from_bytes_be`, raises with
/// `BigUint::modpow` and writes the result with `BigUint::to_bytes_be`;
/// the contract names the result. `modpow` panics on a zero modulus, which
/// `requires` leaves out.
#[verifier::external_body]
fn modpow_bytes(base: &[u8], exp: &[u8], modulus: &[u8]) -> (r: Vec<u8>)
    requires
        exists|i: int| 0 <= i < modulus@.len() && modulus@[i] != 0,
    ensures
        r@ == dh_modpow(base@, exp@, modulus@),
{
    BigUint::from_bytes_be(base).modpow(&BigUint::from_bytes_be(exp), &BigUint::from_bytes_be(modulus)).to_bytes_be()
}

/// The number big-endian bytes stand for.
pub open spec fn be_value(s: Seq<u8>) -> nat
    decreases s.len(),
{
    if s.len() == 0 {
        0
    } else {
        be_value(s.drop_last()) * 256 + s.last() as nat
    }
}

/// `a` modulo `m`, read and written with `BigUint::from_bytes_be` and
/// `BigUint::to_bytes_be` around `BigUint`'s `%`; `%` panics on a zero
/// divisor, which `requires` leaves out.
#[verifier::external_body]
fn bytes_rem(a: &[u8], m: &[u8]) -> (r: Vec<u8>)
    requires
        be_value(m@) > 0,
    ensures
        be_value(r@) == be_value(a@) % be_value(m@),
{
    (BigUint::from_bytes_be(a) % BigUint::from_bytes_be(m)).to_bytes_be()
}

/// `a` plus `b`, read and written with `BigUint::from_bytes_be` and
/// `BigUint::to_bytes_be` around `BigUint`'s `+`.
#[verifier::external_body]
fn bytes_add(a: &[u8], b: &[u8]) -> (r: Vec<u8>)
    ensures
        be_value(r@) == be_value(a@) + be_value(b@),
{
    (BigUint::from_bytes_be(a) + BigUint::from_bytes_be(b)).to_bytes_be()
}

proof fn lemma_be_value_last(s: Seq<u8>, b: u8)
    requires
        s.len() > 0,
        b <= s.last(),
    ensures
        be_value(s.update(s.len() - 1, b)) == be_value(s) - (s.last() - b),
        be_value(s) >= s.last(),
{
    let t = s.update(s.len() - 1, b);
    assert(t.drop_last() =~= s.drop_last());
}

/// The private exponent drawn from 96 random bytes: their number modulo the
/// prime minus 3, plus 2, so that it lies from 2 to the prime minus 2.
pub fn dh_private_key(random: &[u8; 96]) -> (r: Vec<u8>)
    ensures
        be_value(r@) == be_value(random@) % (be_value(prime_seq()) - 3) as nat + 2,
        2 <= be_value(r@) <= be_value(prime_seq()) - 2,
{
    let mut m = mse_prime();
    m[95] = 0xfc;
    proof {
        lemma_be_value_last(prime_seq(), 0xfc);
        assert(m@ =~= prime_seq().update(95, 0xfc));
    }
    let rem = bytes_rem(random.as_slice(), m.as_slice());
    let two: [u8; 1] = [2];
    proof {
        assert(two@ =~= seq![2u8]);
        assert(two@.drop_last() =~= Seq::<u8>::empty());
        assert(be_value(two@.drop_last()) == 0);
        assert(two@.last() == 2);
        assert(be_value(two@) == 2);
    }
    let r = bytes_add(rem.as_slice(), two.as_slice());
    r
}

/// The public key of a private exponent: 2 raised to it modulo the prime,
/// as 96 bytes.
pub fn dh_public_key(priv_key: &[u8]) -> (r: Vec<u8>)
    ensures
        r@ == fixed_width(dh_modpow(seq![2u8], priv_key@, prime_seq()), 96),
{
    let p = mse_prime();
    assert(p@[0] != 0);
    let two: [u8; 1] = [2];
    assert(two@ =~= seq![2u8]);
    let v = modpow_bytes(two.as_slice(), priv_key, p.as_slice());
    fit_be_bytes(v.as_slice(), 96)
}

/// The shared secret: the peer's public key raised to our private
/// exponent modulo the prime, as 96 bytes.
pub fn dh_shared_secret(peer_pub: &[u8], priv_key: &[u8]) -> (r: Vec<u8>)
    ensures
        r@ == fixed_width(dh_modpow(peer_pub@, priv_key@, prime_seq()), 96),
{
    let p = mse_prime();
    assert(p@[0] != 0);
    let v = modpow_bytes(peer_pub, priv_key, p.as_slice());
    fit_be_bytes(v.as_slice(), 96)
}

/// The number 2 as 96 big-endian bytes.
pub open spec fn two_96() -> Seq<u8> {
    Seq::new(96, |i: int| if i == 95 { 2u8 } else { 0u8 })
}

/// The prime minus 2 as 96 big-endian bytes (its last byte is 0xff).
pub open spec fn prime_minus_two() -> Seq<u8> {
    prime_seq().update(95, 0xfdu8)
}

/// Whether a peer's public key lies from 2 to the prime minus 2. For
/// numbers of equal width in big-endian bytes, byte order is numeric order.
pub fn dh_public_in_range(peer_pub: &[u8; 96]) -> (r: bool)
    ensures
        r == (!crate::bencode::lex_lt(peer_pub@, two_96()) && !crate::bencode::lex_lt(prime_minus_two(), peer_pub@)),
{
    let mut two = [0u8; 96];
    two.set(95, 2);
    assert(two@ =~= two_96());
    let mut upper = mse_prime();
    upper.set(95, 0xfd);
    assert(upper@ =~= prime_minus_two());
    !crate::bencode::bytes_lt(peer_pub.as_slice(), two.as_slice()) && !crate::bencode::bytes_lt(upper.as_slice(), peer_pub.as_slice())
}

/// The crypto method a responder selects from what the initiator
/// provides: RC4 when offered, else plaintext when both allow it.
pub fn select_crypto(crypto_provide: u32, allow_plain: bool) -> (r: Option<u32>)
    ensures
        crypto_provide & 2 != 0 ==> r == Some(2u32),
        crypto_provide & 2 == 0 && allow_plain && crypto_provide & 1 != 0 ==> r == Some(1u32),
        crypto_provide & 2 == 0 && !(allow_plain && crypto_provide & 1 != 0) ==> r is None,
{
    if crypto_provide & 2 != 0 {
        Some(2)
    } else if allow_plain && crypto_provide & 1 != 0 {
        Some(1)
    } else {
        None
    }
}

} // verus!

verus! {

// ---------------------------------------------------------------------
// Handshake messages
// ---------------------------------------------------------------------

/// Longest padding accepted in the handshake.
pub const MAX_PAD_LEN: u16 = 512;

pub open spec fn req1() -> Seq<u8> {
    seq![114u8, 101, 113, 49]
}

pub open spec fn req3() -> Seq<u8> {
    seq![114u8, 101, 113, 51]
}

/// A number as four big-endian bytes.
pub open spec fn be_u32(x: u32) -> Seq<u8> {
    seq![(x >> 24u32) as u8, (x >> 16u32) as u8, (x >> 8u32) as u8, x as u8]
}

/// A number as two big-endian bytes.
pub open spec fn be_u16(x: u16) -> Seq<u8> {
    seq![(x >> 8u16) as u8, x as u8]
}

/// Eight zero bytes, the verification constant.
pub open spec fn vc() -> Seq<u8> {
    Seq::new(8, |i: int| 0u8)
}

/// What the initiator encrypts in its third message: the verification
/// constant, the methods it provides, no padding, and its first payload
/// with its length.
pub open spec fn step3_plain(provide: u32, payload: Seq<u8>) -> Seq<u8> {
    vc() + be_u32(provide) + seq![0u8, 0u8] + be_u16(payload.len() as u16) + payload
}

/// What the responder encrypts in its reply: the verification constant,
/// the chosen method and no padding.
pub open spec fn step4_plain(select: u32) -> Seq<u8> {
    vc() + be_u32(select) + seq![0u8, 0u8]
}

/// Two 20-byte values combined byte by byte with XOR.
pub open spec fn xor20(a: Seq<u8>, b: Seq<u8>) -> Seq<u8> {
    Seq::new(20, |i: int| a[i] ^ b[i])
}

fn push_u32(out: &mut Vec<u8>, x: u32)
    ensures
        final(out)@ == old(out)@ + be_u32(x),
{
    out.push((x >> 24u32) as u8);
    out.push((x >> 16u32) as u8);
    out.push((x >> 8u32) as u8);
    out.push(x as u8);
    assert(final(out)@ =~= old(out)@ + be_u32(x));
}

fn push_u16(out: &mut Vec<u8>, x: u16)
    ensures
        final(out)@ == old(out)@ + be_u16(x),
{
    out.push((x >> 8u16) as u8);
    out.push(x as u8);
    assert(final(out)@ =~= old(out)@ + be_u16(x));
}

fn push_zeros(out: &mut Vec<u8>, n: usize)
    ensures
        final(out)@ == old(out)@ + Seq::new(n as nat, |i: int| 0u8),
{
    let ghost start = out@;
    let mut k: usize = 0;
    while k < n
        invariant
            k <= n,
            out@ == start + Seq::new(k as nat, |i: int| 0u8),
        decreases n - k,
    {
        out.push(0);
        k = k + 1;
        assert(out@ =~= start + Seq::new(k as nat, |i: int| 0u8));
    }
}

/// The initiator's third message: `HASH('req1', S)`, then
/// `HASH('req2', SKEY) xor HASH('req3', S)`, then `step3_plain`
/// encrypted with the initiator's cipher, which moves on past it.
pub fn build_step3(shared: &[u8], info_hash: &[u8; 20], enc: &mut Rc4, provide: u32, initial_payload: &[u8]) -> (r:
    Vec<u8>)
    requires
        initial_payload@.len() <= u16::MAX,
    ensures
        r@ == spec_sha1_bytes(req1(), shared@) + xor20(
            spec_sha1_bytes(req2(), info_hash@),
            spec_sha1_bytes(req3(), shared@),
        ) + xor_seq(
            step3_plain(provide, initial_payload@),
            keystream(old(enc)@, step3_plain(provide, initial_payload@).len()).0,
        ),
        final(enc)@ == keystream(old(enc)@, step3_plain(provide, initial_payload@).len()).1,
{
    let t1: [u8; 4] = [114, 101, 113, 49];
    let t2: [u8; 4] = [114, 101, 113, 50];
    let t3: [u8; 4] = [114, 101, 113, 51];
    assert(t1@ =~= req1());
    assert(t2@ =~= req2());
    assert(t3@ =~= req3());
    let h1 = sha1_bytes(t1.as_slice(), shared);
    let h2 = sha1_bytes(t2.as_slice(), info_hash.as_slice());
    let h3 = sha1_bytes(t3.as_slice(), shared);
    let x = xor_hash(h2.as_slice(), h3.as_slice());
    let mut plain: Vec<u8> = Vec::new();
    push_zeros(&mut plain, 8);
    push_u32(&mut plain, provide);
    push_zeros(&mut plain, 2);
    push_u16(&mut plain, initial_payload.len() as u16);
    crate::http::push_all(&mut plain, initial_payload);
    assert(plain@ =~= step3_plain(provide, initial_payload@));
    enc.apply(plain.as_mut_slice());
    let mut out: Vec<u8> = Vec::new();
    crate::http::push_all(&mut out, h1.as_slice());
    crate::http::push_all(&mut out, x.as_slice());
    crate::http::push_all(&mut out, plain.as_slice());
    assert(x@ =~= xor20(h2@, h3@));
    assert(out@ =~= spec_sha1_bytes(req1(), shared@) + xor20(
        spec_sha1_bytes(req2(), info_hash@),
        spec_sha1_bytes(req3(), shared@),
    ) + xor_seq(
        step3_plain(provide, initial_payload@),
        keystream(old(enc)@, step3_plain(provide, initial_payload@).len()).0,
    ));
    out
}

/// The responder's reply: `step4_plain` encrypted with its cipher, which
/// moves on past it.
pub fn build_step4(enc: &mut Rc4, crypto_select: u32) -> (r: Vec<u8>)
    ensures
        r@ == xor_seq(step4_plain(crypto_select), keystream(old(enc)@, 14).0),
        final(enc)@ == keystream(old(enc)@, 14).1,
{
    let mut plain: Vec<u8> = Vec::new();
    push_zeros(&mut plain, 8);
    push_u32(&mut plain, crypto_select);
    push_zeros(&mut plain, 2);
    assert(plain@ =~= step4_plain(crypto_select));
    enc.apply(plain.as_mut_slice());
    plain
}

/// The decrypted head of the initiator's third message: the verification
/// constant must be zero and the padding at most `MAX_PAD_LEN`; gives the
/// methods provided and the padding length.
pub fn parse_step3_header(dec: [u8; 14]) -> (r: Result<(u32, u16), String>)
    ensures
        dec@.subrange(0, 8) != vc() ==> (r matches Err(e) && e@ == "mse vc verification failed"@),
        dec@.subrange(0, 8) == vc() && r_pad(dec@) > MAX_PAD_LEN ==> (r matches Err(e) && e@ == "mse PadC too large"@),
        dec@.subrange(0, 8) == vc() && r_pad(dec@) <= MAX_PAD_LEN ==> (r matches Ok((p, l)) && be_u32(p) == dec@.subrange(8, 12)
            && l == r_pad(dec@)),
{
    let mut k: usize = 0;
    while k < 8
        invariant
            k <= 8,
            forall|i: int| 0 <= i < k ==> dec@[i] == 0,
        decreases 8 - k,
    {
        if dec[k] != 0 {
            assert(dec@.subrange(0, 8)[k as int] != vc()[k as int]);
            return Err("mse vc verification failed".to_string());
        }
        k = k + 1;
    }
    assert(dec@.subrange(0, 8) =~= vc());
    let provide = ((dec[8] as u32) << 24u32) | ((dec[9] as u32) << 16u32) | ((dec[10] as u32) << 8u32) | (dec[11] as u32);
    let pad = ((dec[12] as u16) << 8u16) | (dec[13] as u16);
    proof {
        lemma_be_u32_bytes(dec[8], dec[9], dec[10], dec[11]);
        lemma_be_u16_bytes(dec[12], dec[13]);
        assert(dec@.subrange(8, 12) =~= seq![dec[8], dec[9], dec[10], dec[11]]);
        assert(dec@.subrange(12, 14) =~= seq![dec[12], dec[13]]);
    }
    if pad > MAX_PAD_LEN {
        return Err("mse PadC too large".to_string());
    }
    Ok((provide, pad))
}

/// The padding length a decrypted header gives in its last two bytes.
pub open spec fn r_pad(dec: Seq<u8>) -> u16 {
    ((dec[dec.len() - 2] as u16) << 8u16 | dec[dec.len() - 1] as u16) as u16
}

proof fn lemma_be_u32_bytes(a: u8, b: u8, c: u8, d: u8)
    ensures
        be_u32(((a as u32) << 24u32) | ((b as u32) << 16u32) | ((c as u32) << 8u32) | (d as u32)) == seq![a, b, c, d],
{
    let x: u32 = ((a as u32) << 24u32) | ((b as u32) << 16u32) | ((c as u32) << 8u32) | (d as u32);
    assert((x >> 24u32) as u8 == a && (x >> 16u32) as u8 == b && (x >> 8u32) as u8 == c && x as u8 == d) by (bit_vector)
        requires
            x == ((a as u32) << 24u32) | ((b as u32) << 16u32) | ((c as u32) << 8u32) | (d as u32),
    ;
    assert(be_u32(x) =~= seq![a, b, c, d]);
}

proof fn lemma_be_u16_bytes(a: u8, b: u8)
    ensures
        be_u16(((a as u16) << 8u16) | (b as u16)) == seq![a, b],
{
    let x: u16 = ((a as u16) << 8u16) | (b as u16);
    assert((x >> 8u16) as u8 == a && x as u8 == b) by (bit_vector)
        requires
            x == ((a as u16) << 8u16) | (b as u16),
    ;
    assert(be_u16(x) =~= seq![a, b]);
}

/// The decrypted head of the responder's reply: the chosen method and the
/// padding length, refused above `MAX_PAD_LEN`.
pub fn parse_step4_header(dec: [u8; 6]) -> (r: Result<(u32, u16), String>)
    ensures
        r_pad(dec@) > MAX_PAD_LEN ==> (r matches Err(e) && e@ == "mse PadD too large"@),
        r_pad(dec@) <= MAX_PAD_LEN ==> (r matches Ok((s, l)) && be_u32(s) == dec@.subrange(0, 4) && l == r_pad(dec@)),
{
    let select = ((dec[0] as u32) << 24u32) | ((dec[1] as u32) << 16u32) | ((dec[2] as u32) << 8u32) | (dec[3] as u32);
    let pad = ((dec[4] as u16) << 8u16) | (dec[5] as u16);
    proof {
        lemma_be_u32_bytes(dec[0], dec[1], dec[2], dec[3]);
        assert(dec@.subrange(0, 4) =~= seq![dec[0], dec[1], dec[2], dec[3]]);
    }
    if pad > MAX_PAD_LEN {
        return Err("mse PadD too large".to_string());
    }
    Ok((select, pad))
}

/// How the initiator goes on after the responder's choice: RC4 when it
/// chose RC4, plaintext when it chose plaintext and that is allowed,
/// otherwise the handshake fails.
pub fn initiator_mode(crypto_select: u32, allow_plain: bool) -> (r: Option<CryptoMode>)
    ensures
        crypto_select == 2 ==> r == Some(CryptoMode::Rc4),
        crypto_select != 2 && allow_plain && crypto_select == 1 ==> r == Some(CryptoMode::Plaintext),
        crypto_select != 2 && !(allow_plain && crypto_select == 1) ==> r is None,
{
    if crypto_select == 0x02 {
        Some(CryptoMode::Rc4)
    } else if allow_plain && crypto_select == 0x01 {
        Some(CryptoMode::Plaintext)
    } else {
        None
    }
}

} // verus!

verus! {

// ---------------------------------------------------------------------
// The handshake after the key exchange, over the bytes received so far
// ---------------------------------------------------------------------

/// The first offset, from 0 to `max_offset`, where `pattern` occurs.
pub open spec fn first_sync(data: Seq<u8>, pattern: Seq<u8>, max_offset: int) -> Option<int> {
    if exists|off: int| #[trigger] in_sync_window(data, pattern, 0, max_offset, off) && occurs_at(data, pattern, off) {
        Some(
            choose|o: int|
                #[trigger] in_sync_window(data, pattern, 0, max_offset, o) && occurs_at(data, pattern, o) && forall|off: int|
                    0 <= off < o ==> !occurs_at(data, pattern, off),
        )
    } else {
        None
    }
}

/// Whether candidate `h` is the torrent that `HASH('req2', SKEY)` names.
pub open spec fn names_torrent(h: [u8; 20], target: Seq<u8>) -> bool {
    spec_sha1_bytes(req2(), h@) == target
}

/// The first candidate torrent that `target` names.
pub open spec fn first_torrent(hashes: Seq<[u8; 20]>, target: Seq<u8>) -> Option<[u8; 20]> {
    if exists|k: int| 0 <= k < hashes.len() && names_torrent(#[trigger] hashes[k], target) {
        let k = choose|k: int|
            0 <= k < hashes.len() && names_torrent(#[trigger] hashes[k], target) && forall|j: int|
                0 <= j < k ==> !names_torrent(#[trigger] hashes[j], target);
        Some(hashes[k])
    } else {
        None
    }
}

/// Four big-endian bytes as a number.
pub open spec fn u32_at(b: Seq<u8>, at: int) -> u32 {
    (((b[at] as u32) << 24u32) | ((b[at + 1] as u32) << 16u32) | ((b[at + 2] as u32) << 8u32) | (b[at + 3] as u32)) as u32
}

/// The method a responder selects (see `select_crypto`).
pub open spec fn spec_select_crypto(provide: u32, allow_plain: bool) -> Option<u32> {
    if provide & 2 != 0 {
        Some(2u32)
    } else if allow_plain && provide & 1 != 0 {
        Some(1u32)
    } else {
        None
    }
}

/// A generator keyed with `key` and past the first 1024 bytes.
pub open spec fn stream_start(key: Seq<u8>) -> Rc4Model {
    keystream(rc4_init(key), 1024).1
}

/// `n` received bytes from `at`, decrypted from the start of a stream.
pub open spec fn decrypted(buf: Seq<u8>, at: int, n: nat, m: Rc4Model) -> Seq<u8> {
    xor_seq(buf.subrange(at, at + n), keystream(m, n).0)
}

/// Where the responder stands, given what it received after the
/// initiator's public key.
pub enum ResponderModel {
    NeedMore,
    Fail(Seq<char>),
    /// The torrent, the chosen method, the initiator's first payload, and
    /// where the handshake ends in the received bytes (`end`), `n` bytes of
    /// it decrypted.
    Done { info_hash: [u8; 20], select: u32, payload: Seq<u8>, end: int, n: nat },
}

/// The responder's progress: find `HASH('req1', S)` within 512 bytes, read
/// `HASH('req2', SKEY) xor HASH('req3', S)` and pick the torrent it names,
/// then decrypt the verification constant, the methods provided, the
/// padding (at most `MAX_PAD_LEN`) and the initial payload with its
/// length; fail when nothing is found within 532 bytes, on an unknown
/// torrent, a bad header or no common method; otherwise wait for more.
pub open spec fn responder_model(shared: Seq<u8>, hashes: Seq<[u8; 20]>, allow_plain: bool, buf: Seq<u8>) -> ResponderModel {
    match first_sync(buf, spec_sha1_bytes(req1(), shared), 512) {
        None => if buf.len() > 532 {
            ResponderModel::Fail("mse req1 sync failed"@)
        } else {
            ResponderModel::NeedMore
        },
        Some(o) => {
            let p = o + 20;
            if buf.len() < p + 20 {
                ResponderModel::NeedMore
            } else {
                let target = xor20(buf.subrange(p, p + 20), spec_sha1_bytes(req3(), shared));
                match first_torrent(hashes, target) {
                    None => ResponderModel::Fail("mse unknown info hash"@),
                    Some(ih) => {
                        let m0 = stream_start(spec_derive_keys(shared, ih@, true).0);
                        let h = p + 20;
                        if buf.len() < h + 14 {
                            ResponderModel::NeedMore
                        } else {
                            let head = decrypted(buf, h, 14, m0);
                            if head.subrange(0, 8) != vc() {
                                ResponderModel::Fail("mse vc verification failed"@)
                            } else if r_pad(head) > MAX_PAD_LEN {
                                ResponderModel::Fail("mse PadC too large"@)
                            } else {
                                let n2 = (16 + r_pad(head)) as nat;
                                if buf.len() < h + n2 {
                                    ResponderModel::NeedMore
                                } else {
                                    let n3 = (n2 + r_pad(decrypted(buf, h, n2, m0))) as nat;
                                    if buf.len() < h + n3 {
                                        ResponderModel::NeedMore
                                    } else {
                                        match spec_select_crypto(u32_at(head, 8), allow_plain) {
                                            None => ResponderModel::Fail("mse no compatible crypto"@),
                                            Some(sel) => ResponderModel::Done {
                                                info_hash: ih,
                                                select: sel,
                                                payload: decrypted(buf, h, n3, m0).subrange(n2 as int, n3 as int),
                                                end: h + n3,
                                                n: n3,
                                            },
                                        }
                                    }
                                }
                            }
                        }
                    },
                }
            }
        },
    }
}

/// A finished responder handshake.
pub struct ResponderDone {
    pub info_hash: [u8; 20],
    pub mode: CryptoMode,
    /// The reply to send: `step4_plain` encrypted.
    pub reply: Vec<u8>,
    /// The initiator's first payload, decrypted.
    pub initial_payload: Vec<u8>,
    /// The bytes received past the handshake, decrypted under RC4.
    pub rest: Vec<u8>,
    pub cipher: Option<CipherState>,
}

/// What the responder does next.
pub enum ResponderStep {
    NeedMore,
    Fail(String),
    Done(ResponderDone),
}

/// A generator keyed with `key` and past the first 1024 bytes.
fn started_cipher(key: &[u8; 20]) -> (r: Rc4)
    ensures
        r@ == stream_start(key@),
        r@.s.len() == 256,
{
    proof {
        lemma_ksa_len(key@, 256);
    }
    let mut c = Rc4::new(key.as_slice());
    c.discard(RC4_DISCARD);
    c
}

/// `n` bytes of `buf` from `at`, decrypted by a generator started with
/// `key`, and the generator after them.
fn decrypt_from(buf: &[u8], at: usize, n: usize, key: &[u8; 20]) -> (r: (Vec<u8>, Rc4))
    requires
        at + n <= buf@.len(),
    ensures
        r.0@ == decrypted(buf@, at as int, n as nat, stream_start(key@)),
        r.1@ == keystream(stream_start(key@), n as nat).1,
        r.1@.s.len() == 256,
{
    let mut c = started_cipher(key);
    let mut out: Vec<u8> = Vec::new();
    let mut i: usize = 0;
    while i < n
        invariant
            i <= n,
            at + n <= buf.len(),
            out@ == buf@.subrange(at as int, at + i),
        decreases n - i,
    {
        out.push(buf[at + i]);
        i = i + 1;
        assert(out@ =~= buf@.subrange(at as int, at + i));
    }
    c.apply(out.as_mut_slice());
    (out, c)
}

/// The bytes of `buf` from `at` on.
fn tail_from(buf: &[u8], at: usize) -> (r: Vec<u8>)
    requires
        at <= buf@.len(),
    ensures
        r@ == buf@.subrange(at as int, buf@.len() as int),
{
    let mut out: Vec<u8> = Vec::new();
    let mut i: usize = at;
    while i < buf.len()
        invariant
            at <= i <= buf@.len(),
            out@ == buf@.subrange(at as int, i as int),
        decreases buf@.len() - i,
    {
        out.push(buf[i]);
        i = i + 1;
        assert(out@ =~= buf@.subrange(at as int, i as int));
    }
    out
}

proof fn lemma_be_u32_injective(a: u32, b: u32)
    requires
        be_u32(a) == be_u32(b),
    ensures
        a == b,
{
    assert(be_u32(a)[0] == be_u32(b)[0] && be_u32(a)[1] == be_u32(b)[1] && be_u32(a)[2] == be_u32(b)[2] && be_u32(a)[3] == be_u32(b)[3]);
    let (a0, a1, a2, a3) = ((a >> 24u32) as u8, (a >> 16u32) as u8, (a >> 8u32) as u8, a as u8);
    let (b0, b1, b2, b3) = ((b >> 24u32) as u8, (b >> 16u32) as u8, (b >> 8u32) as u8, b as u8);
    assert(a == b) by (bit_vector)
        requires
            a0 == (a >> 24u32) as u8, a1 == (a >> 16u32) as u8, a2 == (a >> 8u32) as u8, a3 == a as u8,
            b0 == (b >> 24u32) as u8, b1 == (b >> 16u32) as u8, b2 == (b >> 8u32) as u8, b3 == b as u8,
            a0 == b0, a1 == b1, a2 == b2, a3 == b3,
    ;
}

/// The responder's next move after receiving `buf` past the initiator's
/// public key (see `responder_model`): wait, fail, or finish with the
/// reply to send, the payload, the rest of the bytes and the ciphers.
pub fn responder_step(shared: &[u8], info_hashes: &[[u8; 20]], allow_plain: bool, buf: &[u8]) -> (r: ResponderStep)
    ensures
        match responder_model(shared@, info_hashes@, allow_plain, buf@) {
            ResponderModel::NeedMore => r is NeedMore,
            ResponderModel::Fail(m) => r matches ResponderStep::Fail(e) && e@ == m,
            ResponderModel::Done { info_hash, select, payload, end, n } => r matches ResponderStep::Done(d) && {
                let keys = spec_derive_keys(shared@, info_hash@, true);
                let rest = buf@.subrange(end, buf@.len() as int);
                let dec_after = keystream(stream_start(keys.0), n).1;
                &&& d.info_hash == info_hash
                &&& d.mode == (if select == 2 { CryptoMode::Rc4 } else { CryptoMode::Plaintext })
                &&& d.reply@ == xor_seq(step4_plain(select), keystream(stream_start(keys.1), 14).0)
                &&& d.initial_payload@ == payload
                &&& (select == 2 ==> d.rest@ == xor_seq(rest, keystream(dec_after, rest.len()).0) && (d.cipher matches Some(c)
                    && c.wf() && c.enc_view() == keystream(stream_start(keys.1), 14).1
                    && c.dec_view() == keystream(dec_after, rest.len()).1))
                &&& (select != 2 ==> d.rest@ == rest && d.cipher is None)
            },
        },
{
    let t1: [u8; 4] = [114, 101, 113, 49];
    let t3: [u8; 4] = [114, 101, 113, 51];
    assert(t1@ =~= req1());
    assert(t3@ =~= req3());
    let pattern = sha1_bytes(t1.as_slice(), shared);
    let ghost model = responder_model(shared@, info_hashes@, allow_plain, buf@);
    let o = match find_sync_pattern(buf, pattern.as_slice(), 0, 512) {
        None => {
            assert(first_sync(buf@, pattern@, 512) is None);
            if buf.len() > 532 {
                return ResponderStep::Fail("mse req1 sync failed".to_string());
            }
            return ResponderStep::NeedMore;
        },
        Some(o) => o,
    };
    proof {
        let c = choose|c: int|
            #[trigger] in_sync_window(buf@, pattern@, 0, 512, c) && occurs_at(buf@, pattern@, c) && forall|off: int|
                0 <= off < c ==> !occurs_at(buf@, pattern@, off);
        assert(in_sync_window(buf@, pattern@, 0, 512, o as int));
        if c < o {
            assert(!occurs_at(buf@, pattern@, c));
        } else if o < c {
            assert(!occurs_at(buf@, pattern@, o as int));
        }
        assert(first_sync(buf@, pattern@, 512) == Some(o as int));
    }
    let p = o + 20;
    if buf.len() < p + 20 {
        return ResponderStep::NeedMore;
    }
    let h3 = sha1_bytes(t3.as_slice(), shared);
    let x = xor_hash(&buf[p..p + 20], h3.as_slice());
    assert(x@ =~= xor20(buf@.subrange(p as int, p + 20), spec_sha1_bytes(req3(), shared@)));
    let ih = match find_info_hash(info_hashes, &x) {
        None => {
            assert(first_torrent(info_hashes@, x@) is None);
            return ResponderStep::Fail("mse unknown info hash".to_string());
        },
        Some(ih) => ih,
    };
    proof {
        let target = x@;
        let k = choose|k: int|
            0 <= k < info_hashes@.len() && info_hashes@[k] == ih && spec_sha1_bytes(req2(), ih@) == target && forall|j: int|
                0 <= j < k ==> spec_sha1_bytes(req2(), (#[trigger] info_hashes@[j])@) != target;
        assert(names_torrent(info_hashes@[k], target));
        let c = choose|c: int|
            0 <= c < info_hashes@.len() && names_torrent(#[trigger] info_hashes@[c], target) && forall|j: int|
                0 <= j < c ==> !names_torrent(#[trigger] info_hashes@[j], target);
        if c < k {
            assert(!names_torrent(info_hashes@[c], target));
        } else if k < c {
            assert(!names_torrent(info_hashes@[k], target));
        }
        assert(first_torrent(info_hashes@, target) == Some(ih));
    }
    let (dec_key, enc_key) = derive_keys(shared, &ih, true);
    let h = p + 20;
    if buf.len() < h + 14 {
        return ResponderStep::NeedMore;
    }
    let (head_v, _c1) = decrypt_from(buf, h, 14, &dec_key);
    let head: [u8; 14] = [
        head_v[0], head_v[1], head_v[2], head_v[3], head_v[4], head_v[5], head_v[6], head_v[7], head_v[8], head_v[9],
        head_v[10], head_v[11], head_v[12], head_v[13],
    ];
    assert(head@ =~= head_v@);
    let (provide, pad) = match parse_step3_header(head) {
        Err(e) => {
            return ResponderStep::Fail(e);
        },
        Ok(v) => v,
    };
    proof {
        lemma_be_u32_bytes(head[8], head[9], head[10], head[11]);
        assert(head@.subrange(8, 12) =~= seq![head[8], head[9], head[10], head[11]]);
        lemma_be_u32_injective(provide, u32_at(head@, 8));
    }
    let n2: usize = 16 + pad as usize;
    if buf.len() < h + n2 {
        return ResponderStep::NeedMore;
    }
    let (len_v, _c2) = decrypt_from(buf, h, n2, &dec_key);
    let ia_len: usize = (((len_v[n2 - 2] as u16) << 8u16) | (len_v[n2 - 1] as u16)) as usize;
    let n3: usize = n2 + ia_len;
    if buf.len() < h + n3 {
        return ResponderStep::NeedMore;
    }
    let select = match select_crypto(provide, allow_plain) {
        None => {
            return ResponderStep::Fail("mse no compatible crypto".to_string());
        },
        Some(s) => s,
    };
    let (full, mut dec) = decrypt_from(buf, h, n3, &dec_key);
    let payload = tail_from(full.as_slice(), n2);
    let mut enc = started_cipher(&enc_key);
    let reply = build_step4(&mut enc, select);
    let mut rest = tail_from(buf, h + n3);
    if select == 2 {
        dec.apply(rest.as_mut_slice());
        let cipher = CipherState::from_parts(enc, dec);
        ResponderStep::Done(ResponderDone {
            info_hash: ih,
            mode: CryptoMode::Rc4,
            reply,
            initial_payload: payload,
            rest,
            cipher: Some(cipher),
        })
    } else {
        ResponderStep::Done(ResponderDone {
            info_hash: ih,
            mode: CryptoMode::Plaintext,
            reply,
            initial_payload: payload,
            rest,
            cipher: None,
        })
    }
}

} // verus!

verus! {

/// How the initiator goes on after the responder's choice (see
/// `initiator_mode`).
pub open spec fn spec_initiator_mode(select: u32, allow_plain: bool) -> Option<CryptoMode> {
    if select == 2 {
        Some(CryptoMode::Rc4)
    } else if allow_plain && select == 1 {
        Some(CryptoMode::Plaintext)
    } else {
        None
    }
}

/// Where the initiator stands, given what it received after its third
/// message.
pub enum InitiatorModel {
    NeedMore,
    Fail(Seq<char>),
    /// The mode, and where the reply ends in the received bytes (`end`),
    /// `n` bytes of it decrypted from its verification constant on.
    Done { mode: CryptoMode, end: int, n: nat },
}

/// The initiator's progress: find the encrypted verification constant
/// within 512 bytes, then decrypt the chosen method and the padding (at
/// most `MAX_PAD_LEN`); fail when nothing is found within 520 bytes, on too
/// much padding or a method it did not offer; otherwise wait for more.
pub open spec fn initiator_model(dec_key: Seq<u8>, allow_plain: bool, buf: Seq<u8>) -> InitiatorModel {
    let m0 = stream_start(dec_key);
    match first_sync(buf, keystream(m0, 8).0, 512) {
        None => if buf.len() > 520 {
            InitiatorModel::Fail("mse vc sync failed"@)
        } else {
            InitiatorModel::NeedMore
        },
        Some(o) => if buf.len() < o + 14 {
            InitiatorModel::NeedMore
        } else {
            let head = decrypted(buf, o, 14, m0);
            if r_pad(head) > MAX_PAD_LEN {
                InitiatorModel::Fail("mse PadD too large"@)
            } else {
                let n2 = (14 + r_pad(head)) as nat;
                if buf.len() < o + n2 {
                    InitiatorModel::NeedMore
                } else {
                    match spec_initiator_mode(u32_at(head, 8), allow_plain) {
                        None => InitiatorModel::Fail("mse crypto selection failed"@),
                        Some(mode) => InitiatorModel::Done { mode, end: o + n2, n: n2 },
                    }
                }
            }
        },
    }
}

/// What the initiator does next.
pub enum InitiatorStep {
    NeedMore,
    Fail(String),
    /// The mode, the bytes received past the reply (decrypted under RC4)
    /// and the receiving generator after them.
    Done { mode: CryptoMode, rest: Vec<u8>, dec: Rc4 },
}

/// The initiator's next move after receiving `buf` past its third message
/// (see `initiator_model`); `dec_key` is its receiving key.
pub fn initiator_step(dec_key: &[u8; 20], allow_plain: bool, buf: &[u8]) -> (r: InitiatorStep)
    ensures
        match initiator_model(dec_key@, allow_plain, buf@) {
            InitiatorModel::NeedMore => r is NeedMore,
            InitiatorModel::Fail(m) => r matches InitiatorStep::Fail(e) && e@ == m,
            InitiatorModel::Done { mode, end, n } => r matches InitiatorStep::Done { mode: md, rest, dec } && {
                let tail = buf@.subrange(end, buf@.len() as int);
                let after = keystream(stream_start(dec_key@), n).1;
                &&& md == mode
                &&& dec@.s.len() == 256
                &&& (mode == CryptoMode::Rc4 ==> rest@ == xor_seq(tail, keystream(after, tail.len()).0)
                    && dec@ == keystream(after, tail.len()).1)
                &&& (mode == CryptoMode::Plaintext ==> rest@ == tail)
            },
        },
{
    let mut preview = started_cipher(dec_key);
    let ghost m0 = preview@;
    let mut pattern: Vec<u8> = Vec::new();
    push_zeros(&mut pattern, 8);
    let ghost zeros = pattern@;
    assert(zeros =~= Seq::new(8, |i: int| 0u8));
    preview.apply(pattern.as_mut_slice());
    proof {
        lemma_keystream_len(m0, 8);
        let ks = keystream(m0, 8).0;
        assert forall|i: int| 0 <= i < 8 implies pattern@[i] == ks[i] by {
            let z = zeros[i];
            let k = ks[i];
            assert(z == 0);
            assert(z ^ k == k) by (bit_vector)
                requires
                    z == 0u8,
            ;
        }
        assert(pattern@ =~= ks);
    }
    let o = match find_sync_pattern(buf, pattern.as_slice(), 0, 512) {
        None => {
            assert(first_sync(buf@, pattern@, 512) is None);
            if buf.len() > 520 {
                return InitiatorStep::Fail("mse vc sync failed".to_string());
            }
            return InitiatorStep::NeedMore;
        },
        Some(o) => o,
    };
    proof {
        let c = choose|c: int|
            #[trigger] in_sync_window(buf@, pattern@, 0, 512, c) && occurs_at(buf@, pattern@, c) && forall|off: int|
                0 <= off < c ==> !occurs_at(buf@, pattern@, off);
        assert(in_sync_window(buf@, pattern@, 0, 512, o as int));
        if c < o {
            assert(!occurs_at(buf@, pattern@, c));
        } else if o < c {
            assert(!occurs_at(buf@, pattern@, o as int));
        }
        assert(first_sync(buf@, pattern@, 512) == Some(o as int));
    }
    if buf.len() < o + 14 {
        return InitiatorStep::NeedMore;
    }
    let (head_v, _c1) = decrypt_from(buf, o, 14, dec_key);
    let head: [u8; 6] = [head_v[8], head_v[9], head_v[10], head_v[11], head_v[12], head_v[13]];
    proof {
        assert(r_pad(head@) == r_pad(head_v@));
        lemma_be_u32_bytes(head[0], head[1], head[2], head[3]);
        assert(head@.subrange(0, 4) =~= seq![head[0], head[1], head[2], head[3]]);
    }
    let (select, pad) = match parse_step4_header(head) {
        Err(e) => {
            return InitiatorStep::Fail(e);
        },
        Ok(v) => v,
    };
    proof {
        assert(be_u32(u32_at(head_v@, 8)) == seq![head[0], head[1], head[2], head[3]]);
        lemma_be_u32_injective(select, u32_at(head_v@, 8));
    }
    let n2: usize = 14 + pad as usize;
    if buf.len() < o + n2 {
        return InitiatorStep::NeedMore;
    }
    let mode = match initiator_mode(select, allow_plain) {
        None => {
            return InitiatorStep::Fail("mse crypto selection failed".to_string());
        },
        Some(m) => m,
    };
    let (_full, mut dec) = decrypt_from(buf, o, n2, dec_key);
    let mut rest = tail_from(buf, o + n2);
    match mode {
        CryptoMode::Rc4 => {
            dec.apply(rest.as_mut_slice());
        },
        CryptoMode::Plaintext => {},
    }
    InitiatorStep::Done { mode, rest, dec }
}

} // verus!
