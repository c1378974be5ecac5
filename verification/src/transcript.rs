//! Deterministic Fiat-Shamir transcript over an extendable-output hash.
//! Absorptions append little-endian encodings to the transcript's byte
//! string; readers view the hash's output stream on the absorbed bytes, so
//! later absorptions do not disturb readers already produced. The challenge
//! sampler draws sparse ring polynomials with `tau1` coefficients of
//! magnitude 1 and `tau2` of magnitude 2; `alphas` draws uniform scalars.

use vstd::prelude::*;

verus! {

use crate::ring::D;
use crate::ring::ModQ;
use crate::ring::Poly;
use crate::ring::poly_wf;
use vstd::arithmetic::power::pow;
use vstd::arithmetic::div_mod::lemma_mod_bound;
use vstd::arithmetic::div_mod::lemma_div_denominator;

/// Byte `i` of the hash's output stream on `input`. The stream is a pure
/// function of the input bytes and is prefix-stable: reading a longer
/// prefix repeats the shorter one.
pub uninterp spec fn xof_byte(input: Seq<u8>, i: int) -> u8;

/// Relies on sha3's `Shake128` (through `Update`, `ExtendableOutput` and
/// `XofReader`): the extendable output is a deterministic function of the
/// absorbed bytes, read here as its first `n` bytes.
#[verifier::external_body]
fn xof_squeeze(input: &Vec<u8>, n: usize) -> (r: Vec<u8>)
    ensures
        r@.len() == n,
        forall|i: int| 0 <= i < n ==> r@[i] == xof_byte(input@, i),
{
    let mut st = sha3::Shake128::default();
    sha3::digest::Update::update(&mut st, input.as_slice());
    let mut rd = sha3::digest::ExtendableOutput::finalize_xof(st);
    let mut out = vec![0u8; n];
    sha3::digest::XofReader::read(&mut rd, &mut out);
    out
}

/// Little-endian byte `k` of `x`.
pub open spec fn le_byte(x: int, k: int) -> u8 {
    ((x / pow(256, k as nat)) % 256) as u8
}

/// The `n`-byte little-endian encoding of `x`.
pub open spec fn le_bytes(x: int, n: nat) -> Seq<u8> {
    Seq::new(n, |k: int| le_byte(x, k))
}

/// The 256-byte encoding of a polynomial: four bytes per coefficient.
pub open spec fn poly_bytes(p: Seq<u32>) -> Seq<u8>
    decreases p.len(),
{
    if p.len() == 0 {
        Seq::empty()
    } else {
        poly_bytes(p.drop_last()) + le_bytes(p.last() as int, 4)
    }
}

/// The concatenated encodings of a vector of polynomials.
pub open spec fn pvec_bytes(v: Seq<Seq<u32>>) -> Seq<u8>
    decreases v.len(),
{
    if v.len() == 0 {
        Seq::empty()
    } else {
        pvec_bytes(v.drop_last()) + poly_bytes(v.last())
    }
}

/// The fixed transcript prefix, before the domain separator.
pub open spec fn fs_prefix() -> Seq<u8> {
    seq![103u8, 114u8, 101u8, 121u8, 104u8, 111u8, 117u8, 110u8, 100u8, 47u8, 102u8, 115u8, 47u8]
}

/// Append-only Fiat-Shamir transcript: the bytes absorbed so far.
pub struct Fs {
    pub bytes: Vec<u8>,
}

impl View for Fs {
    type V = Seq<u8>;

    open spec fn view(&self) -> Seq<u8> {
        self.bytes@
    }
}

/// Append the little-endian bytes of `x` (an already-reduced value).
fn push_le_bytes(out: &mut Vec<u8>, x: u64, n: usize)
    requires
        n <= 8,
    ensures
        final(out)@ == old(out)@ + le_bytes(x as int, n as nat),
{
    let ghost xi = x as int;
    let mut v: u64 = x;
    let mut k: usize = 0;
    proof {
        vstd::arithmetic::power::lemma_pow0(256);
        assert(out@ =~= old(out)@ + le_bytes(xi, n as nat).take(0));
    }
    while k < n
        invariant
            k <= n,
            n <= 8,
            xi == x as int,
            v as int == xi / pow(256, k as nat),
            out@ == old(out)@ + le_bytes(xi, n as nat).take(k as int),
        decreases n - k,
    {
        let b: u8 = (v % 256) as u8;
        proof {
            assert(le_bytes(xi, n as nat)[k as int] == le_byte(xi, k as int));
            assert(le_byte(xi, k as int) == b);
            assert(le_bytes(xi, n as nat).take(k as int + 1) =~= le_bytes(xi, n as nat).take(
                k as int,
            ).push(b));
            // peeling one byte divides the remaining value by 256
            vstd::arithmetic::power::lemma_pow_adds(256, k as nat, 1);
            vstd::arithmetic::power::lemma_pow1(256);
            vstd::arithmetic::power::lemma_pow_positive(256, k as nat);
            lemma_div_denominator(xi, pow(256, k as nat) as int, 256);
        }
        out.push(b);
        v = v / 256;
        k = k + 1;
    }
    proof {
        assert(le_bytes(xi, n as nat).take(n as int) =~= le_bytes(xi, n as nat));
    }
}

impl Fs {
    /// A fresh transcript holding the fixed prefix and the domain separator.
    pub fn new(domain: &[u8]) -> (r: Fs)
        ensures
            r@ == fs_prefix() + domain@,
    {
        let mut bytes: Vec<u8> = Vec::new();
        bytes.push(103);
        bytes.push(114);
        bytes.push(101);
        bytes.push(121);
        bytes.push(104);
        bytes.push(111);
        bytes.push(117);
        bytes.push(110);
        bytes.push(100);
        bytes.push(47);
        bytes.push(102);
        bytes.push(115);
        bytes.push(47);
        proof {
            assert(bytes@ =~= fs_prefix());
        }
        let n = domain.len();
        let mut i: usize = 0;
        while i < n
            invariant
                i <= n,
                n == domain@.len(),
                bytes@ == fs_prefix() + domain@.take(i as int),
            decreases n - i,
        {
            proof {
                assert((fs_prefix() + domain@.take(i as int)).push(domain@[i as int])
                    =~= fs_prefix() + domain@.take(i as int + 1));
            }
            bytes.push(domain[i]);
            i = i + 1;
        }
        proof {
            assert(domain@.take(n as int) =~= domain@);
        }
        Fs { bytes }
    }

    pub fn absorb_bytes(&mut self, data: &[u8])
        ensures
            final(self)@ == old(self)@ + data@,
    {
        let n = data.len();
        let mut i: usize = 0;
        while i < n
            invariant
                i <= n,
                n == data@.len(),
                self@ == old(self)@ + data@.take(i as int),
            decreases n - i,
        {
            proof {
                assert((old(self)@ + data@.take(i as int)).push(data@[i as int]) =~= old(self)@
                    + data@.take(i as int + 1));
            }
            self.bytes.push(data[i]);
            i = i + 1;
        }
        proof {
            assert(data@.take(n as int) =~= data@);
        }
    }

    pub fn absorb_u64(&mut self, x: u64)
        ensures
            final(self)@ == old(self)@ + le_bytes(x as int, 8),
    {
        push_le_bytes(&mut self.bytes, x, 8);
    }

    pub fn absorb_poly(&mut self, p: &Poly)
        requires
            p@.len() == 64,
        ensures
            final(self)@ == old(self)@ + poly_bytes(p@),
    {
        let mut i: usize = 0;
        proof {
            assert(p@.take(0) =~= Seq::<u32>::empty());
            assert(self@ =~= old(self)@ + poly_bytes(p@.take(0)));
        }
        while i < D
            invariant
                i <= 64,
                p@.len() == 64,
                self@ == old(self)@ + poly_bytes(p@.take(i as int)),
            decreases 64 - i,
        {
            proof {
                assert(p@.take(i as int + 1).drop_last() =~= p@.take(i as int));
                assert(p@.take(i as int + 1).last() == p@[i as int]);
            }
            push_le_bytes(&mut self.bytes, coeff_as_u64(p, i), 4);
            i = i + 1;
        }
        proof {
            assert(p@.take(64) =~= p@);
        }
    }

    pub fn absorb_polyvec(&mut self, v: &Vec<Poly>)
        requires
            forall|i: int| 0 <= i < v@.len() ==> (#[trigger] v@[i]@).len() == 64,
        ensures
            final(self)@ == old(self)@ + pvec_bytes(crate::ring::vv(v@)),
    {
        let n = v.len();
        let mut i: usize = 0;
        proof {
            assert(crate::ring::vv(v@).take(0) =~= Seq::<Seq<u32>>::empty());
            assert(self@ =~= old(self)@ + pvec_bytes(crate::ring::vv(v@).take(0)));
        }
        while i < n
            invariant
                i <= n,
                n == v@.len(),
                forall|j: int| 0 <= j < v@.len() ==> (#[trigger] v@[j]@).len() == 64,
                self@ == old(self)@ + pvec_bytes(crate::ring::vv(v@).take(i as int)),
            decreases n - i,
        {
            proof {
                let vs = crate::ring::vv(v@);
                assert(vs[i as int] == v@[i as int]@);
                assert(vs.take(i as int + 1).drop_last() =~= vs.take(i as int));
                assert(vs.take(i as int + 1).last() == vs[i as int]);
            }
            self.absorb_poly(&v[i]);
            i = i + 1;
        }
        proof {
            assert(crate::ring::vv(v@).take(n as int) =~= crate::ring::vv(v@));
        }
    }
}

/// Widen a coefficient for byte encoding.
fn coeff_as_u64(p: &Poly, i: usize) -> (r: u64)
    requires
        i < p@.len(),
    ensures
        r == p@[i as int],
{
    p.c[i] as u64
}

/// A reader over the hash output stream of a fixed byte string: the next
/// position to read, and a buffer holding a prefix of the stream.
pub struct FsReader {
    pub input: Vec<u8>,
    pub buf: Vec<u8>,
    pub pos: usize,
}

impl FsReader {
    pub open spec fn wf(self) -> bool {
        self.pos <= self.buf@.len() && forall|i: int|
            0 <= i < self.buf@.len() ==> self.buf@[i] == xof_byte(self.input@, i)
    }

    /// Begin reading the output stream for the transcript's current bytes.
    pub fn start(fs: &Fs) -> (r: FsReader)
        ensures
            r.wf(),
            r.input@ == fs@,
            r.pos == 0,
    {
        let n = fs.bytes.len();
        let mut input: Vec<u8> = Vec::new();
        let mut i: usize = 0;
        while i < n
            invariant
                i <= n,
                n == fs@.len(),
                input@ == fs@.take(i as int),
            decreases n - i,
        {
            proof {
                assert(fs@.take(i as int).push(fs@[i as int]) =~= fs@.take(i as int + 1));
            }
            input.push(fs.bytes[i]);
            i = i + 1;
        }
        proof {
            assert(fs@.take(n as int) =~= fs@);
        }
        FsReader { input, buf: Vec::new(), pos: 0 }
    }

    /// The next byte of the stream, extending the buffered prefix on demand.
    pub fn next_byte(&mut self) -> (r: u8)
        requires
            old(self).wf(),
            old(self).pos < 0xffff_0000,
        ensures
            final(self).wf(),
            final(self).input@ == old(self).input@,
            final(self).pos == old(self).pos + 1,
            r == xof_byte(old(self).input@, old(self).pos as int),
    {
        if self.pos >= self.buf.len() {
            let want: usize = self.pos + 1024;
            let nb = xof_squeeze(&self.input, want);
            self.buf = nb;
        }
        let b = self.buf[self.pos];
        self.pos = self.pos + 1;
        b
    }

    /// The next two bytes as a little-endian 16-bit value.
    pub fn next_u16(&mut self) -> (r: u16)
        requires
            old(self).wf(),
            old(self).pos < 0xfff0_0000,
        ensures
            final(self).wf(),
            final(self).input@ == old(self).input@,
            final(self).pos == old(self).pos + 2,
            r as int == xof_byte(old(self).input@, old(self).pos as int) + 256 * xof_byte(
                old(self).input@,
                old(self).pos + 1,
            ),
    {
        let b0 = self.next_byte();
        let b1 = self.next_byte();
        b0 as u16 + 256 * (b1 as u16)
    }
}

/// The value of eight stream bytes at `pos`, little endian.
pub open spec fn u64_le_of(input: Seq<u8>, pos: int) -> int {
    xof_byte(input, pos) + 256 * xof_byte(input, pos + 1) + 65536 * xof_byte(input, pos + 2)
        + 16777216 * xof_byte(input, pos + 3) + 4294967296 * xof_byte(input, pos + 4)
        + 1099511627776 * xof_byte(input, pos + 5) + 281474976710656 * xof_byte(input, pos + 6)
        + 72057594037927936 * xof_byte(input, pos + 7)
}

impl Fs {
    /// Draw `l` uniform scalars in `[0, q)` by reducing 8-byte stream draws.
    pub fn alphas(&self, l: usize, q: &ModQ) -> (r: Vec<u32>)
        requires
            q.wf(),
            l <= 0x10000,
        ensures
            r@.len() == l,
            forall|i: int| 0 <= i < l ==> (#[trigger] r@[i]) < q.q,
            forall|i: int|
                0 <= i < l ==> (#[trigger] r@[i]) as int == u64_le_of(self@, 8 * i) % (
                q.q as int),
    {
        let mut rdr = FsReader::start(self);
        let mut out: Vec<u32> = Vec::new();
        let mut i: usize = 0;
        while i < l
            invariant
                i <= l,
                l <= 0x10000,
                q.wf(),
                rdr.wf(),
                rdr.input@ == self@,
                rdr.pos == 8 * i,
                out@.len() == i,
                forall|j: int| 0 <= j < i ==> (#[trigger] out@[j]) < q.q,
                forall|j: int|
                    0 <= j < i ==> (#[trigger] out@[j]) as int == u64_le_of(self@, 8 * j) % (
                    q.q as int),
            decreases l - i,
        {
            let b0 = rdr.next_byte();
            let b1 = rdr.next_byte();
            let b2 = rdr.next_byte();
            let b3 = rdr.next_byte();
            let b4 = rdr.next_byte();
            let b5 = rdr.next_byte();
            let b6 = rdr.next_byte();
            let b7 = rdr.next_byte();
            let v: u64 = b0 as u64 + 256 * (b1 as u64) + 65536 * (b2 as u64) + 16777216 * (
            b3 as u64) + 4294967296 * (b4 as u64) + 1099511627776 * (b5 as u64) + 281474976710656
                * (b6 as u64) + 72057594037927936 * (b7 as u64);
            let a: u32 = (v % (q.q as u64)) as u32;
            proof {
                lemma_mod_bound(v as int, q.q as int);
                assert(v as int == u64_le_of(self@, 8 * (i as int)));
            }
            out.push(a);
            i = i + 1;
        }
        out
    }
}


/// The 16-bit little-endian stream word at position `pos`.
pub open spec fn u16_at(s: Seq<u8>, pos: int) -> int {
    xof_byte(s, pos) + 256 * xof_byte(s, pos + 1)
}

/// The lowest index not yet chosen (0 if all 64 are, which callers exclude).
pub open spec fn first_unchosen(chosen: Seq<bool>, k: int) -> int
    decreases 64 - k,
{
    if k < 0 || k >= 64 {
        0
    } else if !chosen[k] {
        k
    } else {
        first_unchosen(chosen, k + 1)
    }
}

/// Rejection-sample one position from the stream: the first draw landing on
/// an unchosen slot, or the lowest unchosen slot once the fuel runs out.
/// Returns the slot and the next stream position.
pub open spec fn pick_pos_spec(s: Seq<u8>, pos: int, chosen: Seq<bool>, fuel: nat) -> (int, int)
    decreases fuel,
{
    if fuel == 0 {
        (first_unchosen(chosen, 0), pos)
    } else {
        if 0 <= u16_at(s, pos) % 64 < chosen.len() && !chosen[u16_at(s, pos) % 64] {
            (u16_at(s, pos) % 64, pos + 2)
        } else {
            pick_pos_spec(s, pos + 2, chosen, (fuel - 1) as nat)
        }
    }
}

/// Draw `cnt` distinct positions: returns the positions in draw order, the
/// final chosen-flag vector, and the next stream position.
pub open spec fn sample_positions_spec(s: Seq<u8>, pos: int, chosen: Seq<bool>, cnt: nat) -> (
    Seq<int>,
    Seq<bool>,
    int,
)
    decreases cnt,
{
    if cnt == 0 {
        (Seq::empty(), chosen, pos)
    } else {
        let head = pick_pos_spec(s, pos, chosen, 4096);
        let rest = sample_positions_spec(s, head.1, chosen.update(head.0, true), (cnt - 1) as nat);
        (seq![head.0] + rest.0, rest.1, rest.2)
    }
}

/// Stream-driven shuffle of the position list, swapping index `i` downward.
pub open spec fn shuffle_spec(s: Seq<u8>, pos: int, ps: Seq<int>, i: int) -> (Seq<int>, int)
    decreases i,
{
    if i < 1 {
        (ps, pos)
    } else {
        shuffle_spec(
            s,
            pos + 2,
            ps.update(i, ps[u16_at(s, pos) % (i + 1)]).update(u16_at(s, pos) % (i + 1), ps[i]),
            i - 1,
        )
    }
}

/// The signed magnitude written for one position: the amplitude reduced mod
/// `q`, negated when the stream byte is odd.
pub open spec fn sign_value(s: Seq<u8>, pos: int, q: int, amp: int) -> int {
    if xof_byte(s, pos) % 2 == 1 {
        crate::ring::negq(amp % q, q)
    } else {
        amp % q
    }
}

/// Write the signed magnitudes at the shuffled positions: the first `tau2`
/// carry amplitude 2, the rest amplitude 1.
pub open spec fn assign_signs_spec(
    s: Seq<u8>,
    pos: int,
    ps: Seq<int>,
    q: int,
    tau2: int,
    k: int,
    coeffs: Seq<u32>,
) -> (Seq<u32>, int)
    decreases ps.len() - k,
{
    if k < 0 || k >= ps.len() {
        (coeffs, pos)
    } else {
        assign_signs_spec(
            s,
            pos + 1,
            ps,
            q,
            tau2,
            k + 1,
            coeffs.update(
                ps[k],
                sign_value(s, pos, q, if k < tau2 { 2int } else { 1int }) as u32,
            ),
        )
    }
}

/// One sparse ring challenge drawn at stream position `pos`: positions,
/// stream shuffle, then signed magnitudes. Returns the coefficients and the
/// next stream position.
pub open spec fn challenge_poly_spec(s: Seq<u8>, pos: int, q: int, tau1: nat, tau2: nat) -> (
    Seq<u32>,
    int,
) {
    let total = tau1 + tau2;
    let picked = sample_positions_spec(s, pos, Seq::new(64, |i: int| false), total);
    let mixed = if total > 1 {
        shuffle_spec(s, picked.2, picked.0, total as int - 1)
    } else {
        (picked.0, picked.2)
    };
    assign_signs_spec(s, mixed.1, mixed.0, q, tau2 as int, 0, Seq::new(64, |i: int| 0u32))
}

/// The full challenge vector drawn from the start of the stream.
pub open spec fn challenges_spec(s: Seq<u8>, pos: int, q: int, t1: nat, t2: nat, r: nat) -> (
    Seq<Seq<u32>>,
    int,
)
    decreases r,
{
    if r == 0 {
        (Seq::empty(), pos)
    } else {
        let head = challenge_poly_spec(s, pos, q, t1, t2);
        let rest = challenges_spec(s, head.1, q, t1, t2, (r - 1) as nat);
        (seq![head.0] + rest.0, rest.1)
    }
}

/// What `challenge_vec` returns on a transcript holding the bytes `s`: a
/// deterministic function of the absorbed bytes through the hash stream.
pub open spec fn challenge_vec_spec(s: Seq<u8>, r: nat, q: int, t1: nat, t2: nat) -> Seq<Seq<u32>> {
    challenges_spec(s, 0, q, t1, t2, r).0
}

/// A position sequence as mathematical integers.
pub open spec fn usize_ints(s: Seq<usize>) -> Seq<int> {
    s.map_values(|x: usize| x as int)
}

proof fn lemma_first_unchosen_skip(chosen: Seq<bool>, k: int)
    requires
        0 <= k < 64,
        chosen.len() == 64,
        forall|j: int| 0 <= j < k ==> chosen[j],
    ensures
        first_unchosen(chosen, 0) == first_unchosen(chosen, k),
    decreases k,
{
    if k > 0 {
        lemma_first_unchosen_skip(chosen, k - 1);
    }
}

proof fn lemma_sample_positions_len(s: Seq<u8>, pos: int, chosen: Seq<bool>, cnt: nat)
    ensures
        sample_positions_spec(s, pos, chosen, cnt).0.len() == cnt,
    decreases cnt,
{
    if cnt > 0 {
        let head = pick_pos_spec(s, pos, chosen, 4096);
        lemma_sample_positions_len(s, head.1, chosen.update(head.0, true), (cnt - 1) as nat);
    }
}

/// How many entries of the flag vector are set.
pub open spec fn count_true(s: Seq<bool>) -> int
    decreases s.len(),
{
    if s.len() == 0 {
        0
    } else {
        count_true(s.drop_last()) + if s.last() {
            1int
        } else {
            0int
        }
    }
}

proof fn lemma_count_true_update(s: Seq<bool>, i: int)
    requires
        0 <= i < s.len(),
        !s[i],
    ensures
        count_true(s.update(i, true)) == count_true(s) + 1,
    decreases s.len(),
{
    if i == s.len() - 1 {
        assert(s.update(i, true).drop_last() =~= s.drop_last());
    } else {
        assert(s.update(i, true).drop_last() =~= s.drop_last().update(i, true));
        lemma_count_true_update(s.drop_last(), i);
    }
}

proof fn lemma_count_true_all(s: Seq<bool>)
    requires
        forall|i: int| 0 <= i < s.len() ==> s[i],
    ensures
        count_true(s) == s.len(),
    decreases s.len(),
{
    if s.len() > 0 {
        assert(forall|i: int| 0 <= i < s.drop_last().len() ==> s.drop_last()[i]);
        lemma_count_true_all(s.drop_last());
    }
}

/// Attempts granted to the rejection sampler before it falls back to the
/// lowest unused position.
const SAMPLE_FUEL: usize = 4096;

/// Pick a position not yet chosen: by rejection sampling on the stream, or,
/// if the fuel runs out, the lowest unused index.
fn take_position(rdr: &mut FsReader, chosen: &mut Vec<bool>) -> (idx: usize)
    requires
        old(rdr).wf(),
        old(rdr).pos < 0xf000_0000,
        old(chosen)@.len() == 64,
        count_true(old(chosen)@) < 64,
    ensures
        final(rdr).wf(),
        final(rdr).input@ == old(rdr).input@,
        old(rdr).pos <= final(rdr).pos <= old(rdr).pos + 2 * 4096,
        idx < 64,
        final(chosen)@.len() == 64,
        !old(chosen)@[idx as int],
        final(chosen)@ == old(chosen)@.update(idx as int, true),
        count_true(final(chosen)@) == count_true(old(chosen)@) + 1,
        (idx as int, final(rdr).pos as int) == pick_pos_spec(
            old(rdr).input@,
            old(rdr).pos as int,
            old(chosen)@,
            4096,
        ),
    {
    let ghost s = old(rdr).input@;
    let ghost full = pick_pos_spec(s, old(rdr).pos as int, old(chosen)@, 4096);
    let mut tries: usize = 0;
    while tries < SAMPLE_FUEL
        invariant
            tries <= 4096,
            rdr.wf(),
            rdr.input@ == old(rdr).input@,
            s == old(rdr).input@,
            old(rdr).pos + 2 * tries == rdr.pos,
            old(rdr).pos < 0xf000_0000,
            rdr.pos < 0xf000_0000 + 2 * 4096,
            chosen@ == old(chosen)@,
            chosen@.len() == 64,
            count_true(chosen@) < 64,
            full == pick_pos_spec(s, old(rdr).pos as int, old(chosen)@, 4096),
            full == pick_pos_spec(s, rdr.pos as int, chosen@, (4096 - tries) as nat),
        decreases 4096 - tries,
    {
        let ghost pos_before = rdr.pos as int;
        let w = rdr.next_u16();
        let cand: usize = (w as usize) % 64;
        proof {
            assert(cand as int == u16_at(s, pos_before) % 64) by {
                assert(w as int == u16_at(s, pos_before));
            }
        }
        if !chosen[cand] {
            proof {
                lemma_count_true_update(chosen@, cand as int);
                assert(full == (cand as int, pos_before + 2));
            }
            vstd::pervasive::VecAdditionalExecFns::set(chosen, cand, true);
            return cand;
        }
        tries = tries + 1;
    }
    // fallback: the lowest unused index always exists
    proof {
        assert(full == (first_unchosen(chosen@, 0), rdr.pos as int));
    }
    let mut k: usize = 0;
    while k < 64
        invariant
            k <= 64,
            rdr.wf(),
            rdr.input@ == old(rdr).input@,
            s == old(rdr).input@,
            old(rdr).pos <= rdr.pos <= old(rdr).pos + 2 * 4096,
            chosen@ == old(chosen)@,
            chosen@.len() == 64,
            count_true(chosen@) < 64,
            forall|j: int| 0 <= j < k ==> chosen@[j],
            full == (first_unchosen(chosen@, 0), rdr.pos as int),
            full == pick_pos_spec(s, old(rdr).pos as int, old(chosen)@, 4096),
        decreases 64 - k,
    {
        if !chosen[k] {
            proof {
                lemma_count_true_update(chosen@, k as int);
                if k > 0 {
                    lemma_first_unchosen_skip(chosen@, k as int);
                }
                assert(first_unchosen(chosen@, k as int) == k as int);
            }
            vstd::pervasive::VecAdditionalExecFns::set(chosen, k, true);
            return k;
        }
        k = k + 1;
    }
    proof {
        lemma_count_true_all(chosen@);
        assert(false);
    }
    0
}

/// Draw one sparse ring challenge: `tau1 + tau2` distinct positions, the
/// first `tau2` of a stream-shuffled order carrying magnitude 2, the rest
/// magnitude 1, each with a stream-chosen sign. The result is the spec
/// challenge of the stream at the reader's position.
fn sample_challenge_poly(rdr: &mut FsReader, q: &ModQ, tau1: usize, tau2: usize) -> (r: Poly)
    requires
        old(rdr).wf(),
        old(rdr).pos < 0x8000_0000,
        q.wf(),
        tau1 + tau2 <= 64,
    ensures
        final(rdr).wf(),
        final(rdr).input@ == old(rdr).input@,
        old(rdr).pos <= final(rdr).pos <= old(rdr).pos + 64 * 0x4000,
        poly_wf(r@, q.q as int),
        (r@, final(rdr).pos as int) == challenge_poly_spec(
            old(rdr).input@,
            old(rdr).pos as int,
            q.q as int,
            tau1 as nat,
            tau2 as nat,
        ),
{
    let ghost s = old(rdr).input@;
    let ghost qi = q.q as int;
    let total = tau1 + tau2;
    let mut chosen: Vec<bool> = Vec::new();
    let mut z: usize = 0;
    while z < 64
        invariant
            z <= 64,
            chosen@.len() == z,
            forall|j: int| 0 <= j < z ==> !chosen@[j],
        decreases 64 - z,
    {
        chosen.push(false);
        z = z + 1;
    }
    proof {
        assert(count_true(chosen@) == 0) by {
            lemma_count_true_none(chosen@);
        }
        assert(chosen@ =~= Seq::new(64, |i: int| false));
    }
    let ghost picked = sample_positions_spec(s, old(rdr).pos as int, chosen@, total as nat);
    proof {
        lemma_sample_positions_len(s, old(rdr).pos as int, chosen@, total as nat);
    }
    let mut pos: Vec<usize> = Vec::new();
    let mut taken: usize = 0;
    while taken < total
        invariant
            taken <= total,
            total == tau1 + tau2,
            total <= 64,
            rdr.wf(),
            rdr.input@ == old(rdr).input@,
            s == old(rdr).input@,
            qi == q.q as int,
            old(rdr).pos <= rdr.pos,
            rdr.pos <= old(rdr).pos + taken * (2 * 4096),
            old(rdr).pos < 0x8000_0000,
            chosen@.len() == 64,
            count_true(chosen@) == taken,
            pos@.len() == taken,
            forall|j: int| 0 <= j < taken ==> (#[trigger] pos@[j]) < 64,
            picked == sample_positions_spec(s, old(rdr).pos as int, Seq::new(64, |i: int| false), total as nat),
            picked.0.len() == total,
            usize_ints(pos@) == picked.0.take(taken as int),
            sample_positions_spec(s, rdr.pos as int, chosen@, (total - taken) as nat) == (
                picked.0.skip(taken as int),
                picked.1,
                picked.2,
            ),
        decreases total - taken,
    {
        proof {
            assert(taken * (2 * 4096) <= 64 * (2 * 4096)) by (nonlinear_arith)
                requires
                    taken <= 64,
            ;
            assert((taken + 1) * (2 * 4096) == taken * (2 * 4096) + 2 * 4096) by (nonlinear_arith);
        }
        let ghost chosen_before = chosen@;
        let ghost pos_before = rdr.pos as int;
        let idx = take_position(rdr, &mut chosen);
        proof {
            let rem = sample_positions_spec(s, pos_before, chosen_before, (total - taken) as nat);
            let head = pick_pos_spec(s, pos_before, chosen_before, 4096);
            assert(head == (idx as int, rdr.pos as int));
            assert(rem.0 == seq![head.0] + sample_positions_spec(
                s,
                head.1,
                chosen_before.update(head.0, true),
                (total - taken - 1) as nat,
            ).0);
            assert(chosen@ == chosen_before.update(idx as int, true));
            assert(picked.0.skip(taken as int)[0] == idx as int);
            assert(picked.0[taken as int] == idx as int) by {
                assert(picked.0.skip(taken as int)[0] == picked.0[taken as int]);
            }
            assert(sample_positions_spec(s, rdr.pos as int, chosen@, (total - taken - 1) as nat).0
                =~= picked.0.skip(taken as int + 1)) by {
                assert(picked.0.skip(taken as int).drop_first() =~= picked.0.skip(
                    taken as int + 1,
                ));
                assert((seq![head.0] + sample_positions_spec(
                    s,
                    head.1,
                    chosen_before.update(head.0, true),
                    (total - taken - 1) as nat,
                ).0).drop_first() =~= sample_positions_spec(
                    s,
                    head.1,
                    chosen_before.update(head.0, true),
                    (total - taken - 1) as nat,
                ).0);
            }
        }
        let ghost pv_before = pos@;
        pos.push(idx);
        proof {
            assert(usize_ints(pos@) =~= picked.0.take(taken as int + 1)) by {
                assert forall|j: int| 0 <= j < taken + 1 implies usize_ints(pos@)[j] == picked.0[
                    j] by {
                    assert(usize_ints(pos@)[j] == pos@[j] as int);
                    if j < taken {
                        assert(pos@[j] == pv_before[j]);
                        assert(usize_ints(pv_before)[j] == pv_before[j] as int);
                        assert(usize_ints(pv_before)[j] == picked.0.take(taken as int)[j]);
                    } else {
                        assert(pos@[j] == idx);
                    }
                }
            }
        }
        taken = taken + 1;
    }
    proof {
        assert(usize_ints(pos@) =~= picked.0) by {
            assert(picked.0.take(total as int) =~= picked.0);
        }
        assert(rdr.pos as int == picked.2);
    }
    // stream-driven shuffle of the position list
    let ghost mixed = if total > 1 {
        shuffle_spec(s, picked.2, picked.0, total as int - 1)
    } else {
        (picked.0, picked.2)
    };
    if total > 1 {
        let mut i: usize = total - 1;
        let ghost pos0 = rdr.pos;
        let ghost opos = old(rdr).pos as int;
        let ghost cpos = rdr.pos as int;
        proof {
            assert(cpos <= opos + 64 * (2 * 4096)) by (nonlinear_arith)
                requires
                    cpos <= opos + taken * (2 * 4096),
                    taken <= 64,
            ;
        }
        let mut steps: usize = 0;
        while i >= 1
            invariant
                i <= total - 1,
                2 <= total <= 64,
                steps == (total - 1) - i,
                steps <= 63,
                rdr.wf(),
                rdr.input@ == old(rdr).input@,
                s == old(rdr).input@,
                old(rdr).pos < 0x8000_0000,
                pos0 <= rdr.pos,
                rdr.pos == pos0 + 2 * steps,
                pos0 <= old(rdr).pos + 64 * (2 * 4096),
                pos@.len() == total,
                forall|j: int| 0 <= j < total ==> (#[trigger] pos@[j]) < 64,
                mixed == shuffle_spec(s, rdr.pos as int, usize_ints(pos@), i as int),
            decreases i,
        {
            let ghost ps_before = usize_ints(pos@);
            let ghost pos_before = rdr.pos as int;
            let w = rdr.next_u16();
            let j: usize = (w as usize) % (i + 1);
            proof {
                assert(j as int == u16_at(s, pos_before) % (i as int + 1)) by {
                    assert(w as int == u16_at(s, pos_before));
                }
            }
            let a = pos[i];
            let b = pos[j];
            vstd::pervasive::VecAdditionalExecFns::set(&mut pos, i, b);
            vstd::pervasive::VecAdditionalExecFns::set(&mut pos, j, a);
            proof {
                assert(usize_ints(pos@) =~= ps_before.update(i as int, ps_before[j as int]).update(
                    j as int,
                    ps_before[i as int],
                )) by {
                    assert forall|t: int|
                        0 <= t < total implies usize_ints(pos@)[t] == ps_before.update(
                        i as int,
                        ps_before[j as int],
                    ).update(j as int, ps_before[i as int])[t] by {
                        assert(usize_ints(pos@)[t] == pos@[t] as int);
                        assert(ps_before[t] == pos@.update(i as int, b).update(j as int, a)[t]
                            as int || t == i || t == j);
                    }
                }
            }
            steps = steps + 1;
            i = i - 1;
        }
        proof {
            assert(mixed == (usize_ints(pos@), rdr.pos as int));
        }
    }
    proof {
        assert(mixed == (usize_ints(pos@), rdr.pos as int));
        let opos = old(rdr).pos as int;
        let cpos = rdr.pos as int;
        assert(cpos <= opos + 64 * (2 * 4096) + 2 * 64) by (nonlinear_arith)
            requires
                cpos <= opos + taken * (2 * 4096) + 2 * 64 || cpos <= opos + 64 * (2 * 4096) + 2
                    * 64,
                taken <= 64,
                cpos <= opos + taken * (2 * 4096) || cpos <= opos + 64 * (2 * 4096) + 2 * 63,
        ;
    }
    // signs and magnitudes
    let mut coeffs: Vec<u32> = Vec::new();
    let mut z2: usize = 0;
    while z2 < 64
        invariant
            z2 <= 64,
            coeffs@.len() == z2,
            forall|j: int| 0 <= j < z2 ==> (#[trigger] coeffs@[j]) == 0u32,
        decreases 64 - z2,
    {
        coeffs.push(0);
        z2 = z2 + 1;
    }
    let ghost signed = assign_signs_spec(
        s,
        rdr.pos as int,
        usize_ints(pos@),
        qi,
        tau2 as int,
        0,
        Seq::new(64, |i: int| 0u32),
    );
    proof {
        assert(coeffs@ =~= Seq::new(64, |i: int| 0u32));
    }
    let mut k: usize = 0;
    while k < total
        invariant
            k <= total,
            total <= 64,
            total == tau1 + tau2,
            q.wf(),
            qi == q.q as int,
            rdr.wf(),
            rdr.input@ == old(rdr).input@,
            s == old(rdr).input@,
            old(rdr).pos <= rdr.pos,
            old(rdr).pos < 0x8000_0000,
            rdr.pos <= old(rdr).pos + 64 * (2 * 4096) + 2 * 64 + k,
            pos@.len() == total,
            forall|j: int| 0 <= j < total ==> (#[trigger] pos@[j]) < 64,
            coeffs@.len() == 64,
            forall|j: int| 0 <= j < 64 ==> (#[trigger] coeffs@[j]) < q.q,
            signed == assign_signs_spec(
                s,
                rdr.pos as int,
                usize_ints(pos@),
                qi,
                tau2 as int,
                k as int,
                coeffs@,
            ),
        decreases total - k,
    {
        let ghost pos_before = rdr.pos as int;
        let ghost coeffs_before = coeffs@;
        let sb = rdr.next_byte();
        let amp: u32 = if k < tau2 {
            2
        } else {
            1
        };
        let magnitude: u32 = amp % q.q;
        let value: u32 = if sb % 2 == 1 {
            q.neg(magnitude)
        } else {
            magnitude
        };
        proof {
            assert(sb == xof_byte(s, pos_before));
            assert(value as int == sign_value(s, pos_before, qi, if k < tau2 {
                2int
            } else {
                1int
            })) by {
                vstd::arithmetic::div_mod::lemma_mod_bound(amp as int, qi);
            }
        }
        vstd::pervasive::VecAdditionalExecFns::set(&mut coeffs, pos[k], value);
        proof {
            assert(coeffs@ =~= coeffs_before.update(usize_ints(pos@)[k as int], value));
        }
        k = k + 1;
    }
    proof {
        assert(signed == (coeffs@, rdr.pos as int));
        assert(challenge_poly_spec(s, old(rdr).pos as int, qi, tau1 as nat, tau2 as nat) == (
            coeffs@,
            rdr.pos as int,
        ));
    }
    Poly { c: coeffs }
}

proof fn lemma_count_true_none(s: Seq<bool>)
    requires
        forall|i: int| 0 <= i < s.len() ==> !s[i],
    ensures
        count_true(s) == 0,
    decreases s.len(),
{
    if s.len() > 0 {
        assert(forall|i: int| 0 <= i < s.drop_last().len() ==> !s.drop_last()[i]);
        lemma_count_true_none(s.drop_last());
    }
}


proof fn lemma_challenges_spec_len(s: Seq<u8>, pos: int, q: int, t1: nat, t2: nat, r: nat)
    ensures
        challenges_spec(s, pos, q, t1, t2, r).0.len() == r,
    decreases r,
{
    if r > 0 {
        let head = challenge_poly_spec(s, pos, q, t1, t2);
        lemma_challenges_spec_len(s, head.1, q, t1, t2, (r - 1) as nat);
    }
}

impl Fs {
    /// Draw `r` independent sparse ring challenges from the current state.
    pub fn challenge_vec(&self, r: usize, q: &ModQ, tau1: usize, tau2: usize) -> (out: Vec<Poly>)
        requires
            q.wf(),
            tau1 + tau2 <= 64,
            r <= 1024,
        ensures
            out@.len() == r,
            crate::ring::polyvec_wf(crate::ring::vv(out@), q.q as int),
            crate::ring::vv(out@) == challenge_vec_spec(
                self@,
                r as nat,
                q.q as int,
                tau1 as nat,
                tau2 as nat,
            ),
    {
        let ghost s = self@;
        let ghost qi = q.q as int;
        let ghost full = challenges_spec(s, 0, qi, tau1 as nat, tau2 as nat, r as nat);
        proof {
            lemma_challenges_spec_len(s, 0, qi, tau1 as nat, tau2 as nat, r as nat);
        }
        let mut rdr = FsReader::start(self);
        let mut out: Vec<Poly> = Vec::new();
        let mut i: usize = 0;
        while i < r
            invariant
                i <= r,
                r <= 1024,
                q.wf(),
                qi == q.q as int,
                tau1 + tau2 <= 64,
                rdr.wf(),
                rdr.input@ == s,
                s == self@,
                rdr.pos <= i * 0x10_0000,
                out@.len() == i,
                forall|j: int| 0 <= j < i ==> poly_wf((#[trigger] out@[j])@, q.q as int),
                full == challenges_spec(s, 0, qi, tau1 as nat, tau2 as nat, r as nat),
                challenges_spec(s, rdr.pos as int, qi, tau1 as nat, tau2 as nat, (r - i) as nat)
                    == (full.0.skip(i as int), full.1),
                full.0.len() == r,
                crate::ring::vv(out@) == full.0.take(i as int),
            decreases r - i,
        {
            proof {
                assert(i * 0x10_0000 <= 1024 * 0x10_0000) by (nonlinear_arith)
                    requires
                        i <= 1024,
                ;
                assert((i + 1) * 0x10_0000 == i * 0x10_0000 + 0x10_0000) by (nonlinear_arith);
            }
            let ghost pos_before = rdr.pos as int;
            let p = sample_challenge_poly(&mut rdr, q, tau1, tau2);
            proof {
                let head = challenge_poly_spec(s, pos_before, qi, tau1 as nat, tau2 as nat);
                assert(head == (p@, rdr.pos as int));
                let rem = challenges_spec(s, pos_before, qi, tau1 as nat, tau2 as nat, (r
                    - i) as nat);
                assert(rem.0 == seq![head.0] + challenges_spec(
                    s,
                    head.1,
                    qi,
                    tau1 as nat,
                    tau2 as nat,
                    (r - i - 1) as nat,
                ).0);
                assert(full.0.skip(i as int)[0] == p@);
                assert(full.0[i as int] == p@) by {
                    assert(full.0.skip(i as int)[0] == full.0[i as int]);
                }
                assert(challenges_spec(s, rdr.pos as int, qi, tau1 as nat, tau2 as nat, (r - i
                    - 1) as nat).0 =~= full.0.skip(i as int + 1)) by {
                    assert(full.0.skip(i as int).drop_first() =~= full.0.skip(i as int + 1));
                    assert((seq![head.0] + challenges_spec(
                        s,
                        head.1,
                        qi,
                        tau1 as nat,
                        tau2 as nat,
                        (r - i - 1) as nat,
                    ).0).drop_first() =~= challenges_spec(
                        s,
                        head.1,
                        qi,
                        tau1 as nat,
                        tau2 as nat,
                        (r - i - 1) as nat,
                    ).0);
                }
            }
            let ghost pv_before = out@;
            out.push(p);
            proof {
                assert(crate::ring::vv(out@) =~= full.0.take(i as int + 1)) by {
                    assert forall|j: int|
                        0 <= j < i + 1 implies crate::ring::vv(out@)[j] == full.0[j] by {
                        assert(crate::ring::vv(out@)[j] == out@[j]@);
                        if j < i {
                            assert(out@[j] == pv_before[j]);
                            assert(crate::ring::vv(pv_before)[j] == pv_before[j]@);
                            assert(crate::ring::vv(pv_before)[j] == full.0.take(i as int)[j]);
                        }
                    }
                }
            }
            i = i + 1;
        }
        proof {
            assert(crate::ring::vv(out@) =~= full.0) by {
                assert(full.0.take(r as int) =~= full.0);
            }
            assert forall|j: int|
                0 <= j < crate::ring::vv(out@).len() implies poly_wf(
                #[trigger] crate::ring::vv(out@)[j],
                q.q as int,
            ) by {
                assert(crate::ring::vv(out@)[j] == out@[j]@);
            }
        }
        out
    }
}

} // verus!
