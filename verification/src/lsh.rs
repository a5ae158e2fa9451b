//! The legacy (format 1) hash index: bucket names and the order in which
//! buckets near a query signature are probed.
use crate::bytes::push_u64_le;
use crate::ids::{id_hash, id_hash_text};
use crate::model::PointId;
use crate::digest::{hex_digit, push_hex_digit, sha256, sha256_digest};
use crate::store::{chars_lt, lemma_chars_order, text_less, texts};
use crate::text::str_eq;
use vstd::bytes::spec_u64_to_le_bytes;
use vstd::prelude::*;
use vstd::string::{StringExecFns, StringSliceAdditionalSpecFns};

verus! {

broadcast use vstd::string::group_string_axioms;

/// The masks with `left` more bits set among positions `next..bits`, each
/// OR-ed onto `mask`, in the order of a depth-first walk that picks the lowest
/// free position first.
pub open spec fn masks_from(bits: int, left: nat, next: int, mask: u64) -> Seq<u64>
    decreases left, bits - next,
{
    if left == 0 {
        seq![mask]
    } else if next >= bits || next < 0 {
        Seq::empty()
    } else {
        masks_from(bits, (left - 1) as nat, next + 1, mask | (1u64 << (next as u64)))
            + masks_from(bits, left, next + 1, mask)
    }
}

/// `out` with `s` appended, stopping once it holds `limit` items.
pub open spec fn capped<T>(out: Seq<T>, s: Seq<T>, limit: int) -> Seq<T> {
    if out.len() >= limit {
        out
    } else if s.len() <= limit - out.len() {
        out + s
    } else {
        out + s.take(limit - out.len())
    }
}

proof fn lemma_capped_concat<T>(out: Seq<T>, a: Seq<T>, b: Seq<T>, limit: int)
    ensures
        capped(capped(out, a, limit), b, limit) == capped(out, a + b, limit),
{
    if out.len() < limit {
        if a.len() <= limit - out.len() {
            assert(out + a + b =~= out + (a + b));
            if b.len() <= limit - out.len() - a.len() {
            } else {
                assert((out + a) + b.take(limit - out.len() - a.len()) =~= out + (a + b).take(
                    limit - out.len(),
                ));
            }
        } else {
            assert(out + a.take(limit - out.len()) =~= out + (a + b).take(limit - out.len()));
        }
    }
}

fn visit(bits: usize, left: usize, next: usize, mask: u64, limit: usize, output: &mut Vec<u64>)
    requires
        bits <= 64,
        next <= bits,
    ensures
        final(output)@ == capped(old(output)@, masks_from(bits as int, left as nat, next as int, mask), limit as int),
    decreases left, bits - next,
{
    if output.len() >= limit {
        return;
    }
    if left == 0 {
        output.push(mask);
        return;
    }
    if next >= bits {
        return;
    }
    let ghost before = output@;
    visit(bits, left - 1, next + 1, mask | (1u64 << (next as u64)), limit, output);
    visit(bits, left, next + 1, mask, limit, output);
    proof {
        lemma_capped_concat(
            before,
            masks_from(bits as int, (left - 1) as nat, next + 1, mask | (1u64 << (next as u64))),
            masks_from(bits as int, left as nat, next + 1, mask),
            limit as int,
        );
    }
}

/// The masks with `distance` of the low `bits` bits set, in depth-first order
/// of their lowest positions.
pub open spec fn all_masks(bits: int, distance: nat) -> Seq<u64> {
    masks_from(bits, distance, 0, 0)
}

/// The first `limit` masks with exactly `distance` of the low `bits` bits set.
pub fn hamming_masks(bits: usize, distance: usize, limit: usize) -> (r: Vec<u64>)
    requires
        bits <= 64,
    ensures
        r@ == capped(Seq::empty(), all_masks(bits as int, distance as nat), limit as int),
{
    let mut masks: Vec<u64> = Vec::new();
    visit(bits, distance, 0, 0, limit, &mut masks);
    masks
}

/// The binomial coefficient `n choose k`.
pub open spec fn choose_count(n: int, k: nat) -> nat
    decreases k, n,
{
    if k == 0 {
        1
    } else if n <= 0 {
        0
    } else {
        choose_count(n - 1, (k - 1) as nat) + choose_count(n - 1, k)
    }
}

proof fn lemma_masks_from_len(bits: int, left: nat, next: int, mask: u64)
    requires
        0 <= next <= bits,
    ensures
        masks_from(bits, left, next, mask).len() == choose_count(bits - next, left),
    decreases left, bits - next,
{
    if left > 0 && next < bits {
        lemma_masks_from_len(bits, (left - 1) as nat, next + 1, mask | (1u64 << (next as u64)));
        lemma_masks_from_len(bits, left, next + 1, mask);
    }
}

/// The probe masks at a given distance enumerate every choice of `distance`
/// positions among `bits`, once each: there are `bits choose distance` of
/// them, and `hamming_masks` returns the first `limit`.
pub proof fn lemma_mask_count(bits: int, distance: nat, limit: int)
    requires
        0 <= bits <= 64,
        limit >= 0,
    ensures
        all_masks(bits, distance).len() == choose_count(bits, distance),
        capped(Seq::<u64>::empty(), all_masks(bits, distance), limit).len() == if choose_count(
            bits,
            distance,
        ) <= limit {
            choose_count(bits, distance) as int
        } else {
            limit
        },
{
    lemma_masks_from_len(bits, distance, 0, 0);
}

/// The number of hexadecimal digits of `v` without leading zeros (at least one).
pub open spec fn hex_width(v: nat) -> nat
    decreases v,
{
    if v < 16 {
        1
    } else {
        1 + hex_width(v / 16)
    }
}

/// Hexadecimal digit `k` of `v`, counting from the least significant.
pub open spec fn nibble(v: u64, k: int) -> u64 {
    (v >> ((4 * k) as u64)) & 15u64
}

/// `16` to the power `k`.
pub open spec fn pow16(k: nat) -> nat
    decreases k,
{
    if k == 0 {
        1
    } else {
        16 * pow16((k - 1) as nat)
    }
}

/// The bucket name of a signature: its lowest hexadecimal digits, most
/// significant first, as many as the larger of one digit per four signature
/// bits and the signature's own digit count — the signature zero-padded to
/// that width.
pub open spec fn signature_text(signature: u64, bits: int) -> Seq<char> {
    let width = (bits + 3) / 4;
    let digits = hex_width(signature as nat) as int;
    let n = if width > digits { width } else { digits };
    Seq::new(n as nat, |i: int| hex_digit(nibble(signature, n - 1 - i) as u8))
}

proof fn lemma_hex_width_bound(v: nat, k: nat)
    requires
        k >= 1,
        v < pow16(k),
    ensures
        hex_width(v) <= k,
    decreases k,
{
    if v >= 16 {
        let p = pow16((k - 1) as nat);
        assert(k >= 2) by {
            if k == 1 {
                assert(pow16(1) == 16 * pow16(0));
            }
        }
        assert(v / 16 < p) by (nonlinear_arith)
            requires
                v < 16 * p,
        ;
        lemma_hex_width_bound(v / 16, (k - 1) as nat);
    }
}

fn digit_count(v: u64) -> (r: usize)
    ensures
        r == hex_width(v as nat),
        1 <= r <= 16,
{
    proof {
        reveal_with_fuel(pow16, 17);
        assert(pow16(16) == 0x1_0000_0000_0000_0000nat);
        lemma_hex_width_bound(v as nat, 16);
    }
    let mut n: usize = 1;
    let mut w = v;
    while w >= 16
        invariant
            hex_width(v as nat) == n - 1 + hex_width(w as nat),
            hex_width(v as nat) <= 16,
            n >= 1,
        decreases w,
    {
        w = w / 16;
        n = n + 1;
    }
    n
}

/// The bucket name of a signature with `bits` signature bits.
pub fn signature_name(signature: u64, bits: usize) -> (r: String)
    requires
        bits <= 64,
    ensures
        r@ == signature_text(signature, bits as int),
{
    let width = (bits + 3) / 4;
    let digits = digit_count(signature);
    let n = if width > digits {
        width
    } else {
        digits
    };
    let mut out = "".to_owned();
    proof {
        reveal_strlit("");
    }
    let mut i: usize = 0;
    while i < n
        invariant
            n <= 16,
            n as int == (if (bits + 3) / 4 > hex_width(signature as nat) as int {
                (bits + 3) / 4
            } else {
                hex_width(signature as nat) as int
            }),
            i <= n,
            out@ == signature_text(signature, bits as int).take(i as int),
        decreases n - i,
    {
        let k = (n - 1 - i) as u64;
        let d = (signature >> (4 * k)) & 15u64;
        assert(d < 16) by (bit_vector)
            requires
                d == (signature >> (4 * k)) & 15u64,
        ;
        out = push_hex_digit(out, d);
        assert(out@ =~= signature_text(signature, bits as int).take(i + 1));
        i = i + 1;
    }
    assert(out@ =~= signature_text(signature, bits as int));
    out
}

/// The probes of tables `t..` at one distance: for each table in order, its
/// exact signature XOR each mask in order.
pub open spec fn table_probes(exact: Seq<u64>, t: int, masks: Seq<u64>) -> Seq<(usize, u64)>
    decreases exact.len() - t,
{
    if t < 0 || t >= exact.len() {
        Seq::empty()
    } else {
        masks.map_values(|m: u64| (t as usize, exact[t] ^ m)) + table_probes(exact, t + 1, masks)
    }
}

/// The probes at distances `d..=bits`, nearest first.
pub open spec fn probes_from(exact: Seq<u64>, bits: int, limit: int, d: int) -> Seq<(usize, u64)>
    decreases bits + 1 - d,
{
    if d > bits || d < 0 {
        Seq::empty()
    } else {
        table_probes(exact, 0, capped(Seq::empty(), all_masks(bits, d as nat), limit)) + probes_from(
            exact,
            bits,
            limit,
            d + 1,
        )
    }
}

/// The first `limit` buckets probed for a query whose exact signature in table
/// `t` is `exact[t]`: every table at Hamming distance 0, then 1, and so on up
/// to `bits`, each distance using at most `limit` masks.
pub open spec fn probe_order(exact: Seq<u64>, bits: int, limit: int) -> Seq<(usize, u64)> {
    capped(Seq::empty(), probes_from(exact, bits, limit, 0), limit)
}

proof fn lemma_capped_push<T>(out: Seq<T>, x: T, rest: Seq<T>, limit: int)
    requires
        out.len() < limit,
    ensures
        capped(out.push(x), rest, limit) == capped(out, seq![x] + rest, limit),
{
    lemma_capped_concat(out, seq![x], rest, limit);
    assert(capped(out, seq![x], limit) =~= out.push(x));
}

/// The buckets to probe, in order, for the exact per-table signatures of a query.
pub fn probe_sequence(exact: &[u64], bits: usize, limit: usize) -> (r: Vec<(usize, u64)>)
    requires
        bits <= 64,
    ensures
        r@ == probe_order(exact@, bits as int, limit as int),
{
    let ghost full = probe_order(exact@, bits as int, limit as int);
    let mut probes: Vec<(usize, u64)> = Vec::new();
    let mut d: usize = 0;
    while d <= bits
        invariant
            bits <= 64,
            d <= bits + 1,
            full == probe_order(exact@, bits as int, limit as int),
            capped(probes@, probes_from(exact@, bits as int, limit as int, d as int), limit as int) == full,
        decreases bits + 1 - d,
    {
        let masks = hamming_masks(bits, d, limit);
        let mut t: usize = 0;
        while t < exact.len()
            invariant
                bits <= 64,
                d <= bits,
                t <= exact@.len(),
                full == probe_order(exact@, bits as int, limit as int),
                masks@ == capped(Seq::empty(), all_masks(bits as int, d as nat), limit as int),
                capped(
                    probes@,
                    table_probes(exact@, t as int, masks@) + probes_from(exact@, bits as int, limit as int, d + 1),
                    limit as int,
                ) == full,
            decreases exact.len() - t,
        {
            let sig = exact[t];
            let mut j: usize = 0;
            let ghost tail = table_probes(exact@, t + 1, masks@) + probes_from(exact@, bits as int, limit as int, d + 1);
            assert(table_probes(exact@, t as int, masks@) + probes_from(exact@, bits as int, limit as int, d + 1)
                =~= masks@.map_values(|m: u64| (t, sig ^ m)) + tail);
            assert(masks@.skip(0) =~= masks@);
            while j < masks.len()
                invariant
                    j <= masks@.len(),
                    t < exact@.len(),
                    sig == exact@[t as int],
                    full == probe_order(exact@, bits as int, limit as int),
                    capped(probes@, masks@.skip(j as int).map_values(|m: u64| (t, sig ^ m)) + tail, limit as int) == full,
                decreases masks.len() - j,
            {
                if probes.len() == limit {
                    return probes;
                }
                let x = (t, sig ^ masks[j]);
                proof {
                    let rest = masks@.skip(j + 1).map_values(|m: u64| (t, sig ^ m)) + tail;
                    assert(masks@.skip(j as int).map_values(|m: u64| (t, sig ^ m)) + tail =~= seq![x] + rest);
                    lemma_capped_push(probes@, x, rest, limit as int);
                }
                probes.push(x);
                j = j + 1;
            }
            assert(masks@.skip(j as int).map_values(|m: u64| (t, sig ^ m)) + tail =~= tail);
            t = t + 1;
        }
        assert(table_probes(exact@, t as int, masks@) + probes_from(exact@, bits as int, limit as int, d + 1)
            =~= probes_from(exact@, bits as int, limit as int, d + 1));
        d = d + 1;
    }
    assert(capped(probes@, Seq::<(usize, u64)>::empty(), limit as int) =~= probes@);
    probes
}

/// The bytes `git-vdb/lsh-v1/projection\0` that start every projection hash input.
pub open spec fn projection_tag() -> Seq<u8> {
    seq![0x67u8, 0x69u8, 0x74u8, 0x2du8, 0x76u8, 0x64u8, 0x62u8, 0x2fu8, 0x6cu8, 0x73u8, 0x68u8, 0x2du8, 0x76u8, 0x31u8, 0x2fu8, 0x70u8, 0x72u8, 0x6fu8, 0x6au8, 0x65u8, 0x63u8, 0x74u8, 0x69u8, 0x6fu8, 0x6eu8, 0x00u8]
}

/// The hash input of one projection component: the tag, then the seed, the
/// table, the signature bit and the vector dimension, each as eight
/// little-endian bytes.
pub open spec fn projection_input(seed: u64, table: u64, bit: u64, dimension: u64) -> Seq<u8> {
    projection_tag() + spec_u64_to_le_bytes(seed) + spec_u64_to_le_bytes(table) + spec_u64_to_le_bytes(bit)
        + spec_u64_to_le_bytes(dimension)
}

/// Whether the projection component for `dimension` of signature bit `bit`
/// of table `table` is `+1` (else `-1`): the low bit of the first digest byte
/// of its hash input.
pub open spec fn projection_is_positive(seed: u64, table: u64, bit: u64, dimension: u64) -> bool {
    sha256(projection_input(seed, table, bit, dimension))[0] & 1u8 == 1u8
}

/// The sign of one projection component: `true` for `+1`, `false` for `-1`.
pub fn projection_positive(seed: u64, table: u64, bit: u64, dimension: u64) -> (r: bool)
    ensures
        r == projection_is_positive(seed, table, bit, dimension),
{
    let mut input: Vec<u8> = vec![0x67u8, 0x69u8, 0x74u8, 0x2du8, 0x76u8, 0x64u8, 0x62u8, 0x2fu8, 0x6cu8, 0x73u8, 0x68u8, 0x2du8, 0x76u8, 0x31u8, 0x2fu8, 0x70u8, 0x72u8, 0x6fu8, 0x6au8, 0x65u8, 0x63u8, 0x74u8, 0x69u8, 0x6fu8, 0x6eu8, 0x00u8];
    assert(input@ =~= projection_tag());
    push_u64_le(&mut input, seed);
    push_u64_le(&mut input, table);
    push_u64_le(&mut input, bit);
    push_u64_le(&mut input, dimension);
    assert(input@ =~= projection_input(seed, table, bit, dimension));
    let digest = sha256_digest(input.as_slice());
    digest[0] & 1u8 == 1u8
}

/// What happens to a point entry a bucket offers to an approximate query.
#[derive(Debug, Clone, Copy, PartialEq, Eq)]
pub enum Offer {
    /// An earlier bucket offered it already.
    Duplicate,
    /// It becomes a candidate.
    Added,
    /// The candidate budget is spent: stop probing.
    Stop,
}

/// The candidates an approximate format-1 query has collected, by point hash.
pub struct BucketScan {
    seen: Vec<String>,
    limit: usize,
    exhausted: bool,
}

/// Whether texts are in strictly increasing character order.
pub open spec fn strictly_sorted(s: Seq<Seq<char>>) -> bool {
    forall|i: int, j: int| 0 <= i < j < s.len() ==> chars_lt(#[trigger] s[i], #[trigger] s[j])
}

impl BucketScan {
    /// The hashes collected so far.
    pub closed spec fn seen_view(&self) -> Set<Seq<char>> {
        texts(self.seen@).to_set()
    }

    /// How many hashes were collected.
    pub closed spec fn count(&self) -> nat {
        self.seen@.len()
    }

    /// The candidate budget.
    pub closed spec fn limit_view(&self) -> usize {
        self.limit
    }

    /// Whether collection stopped at the budget.
    pub closed spec fn exhausted_view(&self) -> bool {
        self.exhausted
    }

    /// Whether the record of collected hashes is well formed.
    pub closed spec fn wf(&self) -> bool {
        &&& strictly_sorted(texts(self.seen@))
        &&& self.seen_view().len() == self.count()
        &&& self.seen_view().finite()
    }

    /// A scan that has collected nothing.
    pub fn new(limit: usize) -> (r: Self)
        ensures
            r.wf(),
            r.seen_view() == Set::<Seq<char>>::empty(),
            r.count() == 0,
            r.limit_view() == limit,
            !r.exhausted_view(),
    {
        let r = BucketScan { seen: Vec::new(), limit, exhausted: false };
        assert(texts(r.seen@).to_set() =~= Set::<Seq<char>>::empty());
        r
    }

    /// Offers the point entry named `hash`: an entry seen before is a
    /// duplicate; a new one is added while fewer than `limit` are collected,
    /// and otherwise stops the scan, which records that the budget was spent.
    #[verifier::loop_isolation(false)]
    pub fn offer(&mut self, hash: &str) -> (r: Offer)
        requires
            old(self).wf(),
        ensures
            final(self).wf(),
            final(self).limit_view() == old(self).limit_view(),
            old(self).seen_view().contains(hash@) ==> r == Offer::Duplicate && final(self).seen_view()
                == old(self).seen_view() && final(self).count() == old(self).count()
                && final(self).exhausted_view() == old(self).exhausted_view(),
            !old(self).seen_view().contains(hash@) && old(self).count() >= old(self).limit_view() ==> r
                == Offer::Stop && final(self).seen_view() == old(self).seen_view() && final(self).count()
                == old(self).count() && final(self).exhausted_view(),
            !old(self).seen_view().contains(hash@) && old(self).count() < old(self).limit_view() ==> r
                == Offer::Added && final(self).seen_view() == old(self).seen_view().insert(hash@)
                && final(self).count() == old(self).count() + 1 && final(self).exhausted_view()
                == old(self).exhausted_view(),
    {
        let ghost before = texts(self.seen@);
        let mut lo: usize = 0;
        let mut hi: usize = self.seen.len();
        while lo < hi
            invariant
                before == texts(self.seen@),
                strictly_sorted(before),
                lo <= hi <= self.seen@.len(),
                forall|j: int| 0 <= j < lo ==> chars_lt(#[trigger] before[j], hash@),
                forall|j: int| hi <= j < self.seen@.len() ==> chars_lt(hash@, #[trigger] before[j]),
            decreases hi - lo,
        {
            let mid = lo + (hi - lo) / 2;
            assert(before[mid as int] == self.seen@[mid as int]@);
            if str_eq(self.seen[mid].as_str(), hash) {
                assert(before.contains(hash@));
                return Offer::Duplicate;
            }
            if text_less(self.seen[mid].as_str(), hash) {
                assert forall|j: int| 0 <= j < mid + 1 implies chars_lt(#[trigger] before[j], hash@) by {
                    if j < mid {
                        lemma_chars_order(before[j], before[mid as int], hash@);
                    }
                }
                lo = mid + 1;
            } else {
                proof {
                    lemma_chars_order(before[mid as int], hash@, hash@);
                }
                assert forall|j: int| mid <= j < self.seen@.len() implies chars_lt(hash@, #[trigger] before[j]) by {
                    if j > mid {
                        lemma_chars_order(hash@, before[mid as int], before[j]);
                    }
                }
                hi = mid;
            }
        }
        assert(!before.to_set().contains(hash@)) by {
            if before.contains(hash@) {
                let j = choose|j: int| 0 <= j < before.len() && before[j] == hash@;
                lemma_chars_order(hash@, hash@, hash@);
            }
        }
        if self.seen.len() >= self.limit {
            self.exhausted = true;
            return Offer::Stop;
        }
        self.seen.insert(lo, hash.to_owned());
        proof {
            let after = texts(self.seen@);
            assert(after =~= before.insert(lo as int, hash@));
            assert forall|i: int, j: int| 0 <= i < j < after.len() implies chars_lt(#[trigger] after[i], #[trigger] after[j]) by {
                if j < lo {
                } else if j == lo {
                } else if i < lo {
                    lemma_chars_order(after[i], hash@, after[j]);
                } else if i == lo {
                } else {
                }
            }
            assert forall|y: Seq<char>| after.to_set().contains(y) <==> before.to_set().insert(hash@).contains(y) by {
                if after.contains(y) {
                    let k = choose|k: int| 0 <= k < after.len() && after[k] == y;
                    if k < lo {
                        assert(before[k] == y);
                    } else if k > lo {
                        assert(before[k - 1] == y);
                    }
                }
                if before.contains(y) {
                    let k = choose|k: int| 0 <= k < before.len() && before[k] == y;
                    if k < lo {
                        assert(after[k] == y);
                    } else {
                        assert(after[k + 1] == y);
                    }
                }
                if y == hash@ {
                    assert(after[lo as int] == hash@);
                }
            }
            assert(after.to_set() =~= before.to_set().insert(hash@));
        }
        Offer::Added
    }

    /// How many hashes were collected.
    pub fn collected(&self) -> (r: usize)
        ensures
            r == self.count(),
    {
        self.seen.len()
    }

    /// Whether collection stopped at the budget.
    pub fn candidate_limit_exhausted(&self) -> (r: bool)
        ensures
            r == self.exhausted_view(),
    {
        self.exhausted
    }
}

/// Where a format-1 root keeps a point: under the first two characters of
/// the hexadecimal digest of its ID, in an entry named by the whole digest.
pub fn point_path(id: &PointId) -> (r: (String, String))
    ensures
        r.1@ == id_hash_text(id@),
        r.0@ == id_hash_text(id@).take(2),
{
    let hash = id_hash(id);
    let prefix = hash.as_str().substring_char(0, 2);
    (prefix.to_owned(), hash)
}

/// Whether an entry `hash` may sit under the prefix entry `prefix` of a
/// format-1 points tree: it is 64 bytes long and begins with the prefix.
pub open spec fn point_entry_named(prefix: Seq<u8>, hash: Seq<u8>) -> bool {
    hash.len() == 64 && prefix.len() <= hash.len() && hash.take(prefix.len() as int) == prefix
}

/// Checks the name of a point entry against the prefix entry it sits under.
pub fn point_entry_ok(prefix: &str, hash: &str) -> (r: bool)
    ensures
        r == point_entry_named(prefix.spec_bytes(), hash.spec_bytes()),
{
    let p = prefix.as_bytes();
    let h = hash.as_bytes();
    if h.len() != 64 || p.len() > h.len() {
        return false;
    }
    let mut k: usize = 0;
    while k < p.len()
        invariant
            p@ == prefix.spec_bytes(),
            h@ == hash.spec_bytes(),
            p@.len() <= h@.len(),
            k <= p@.len(),
            forall|j: int| 0 <= j < k ==> h@[j] == p@[j],
        decreases p.len() - k,
    {
        if h[k] != p[k] {
            assert(h@.take(p@.len() as int)[k as int] != p@[k as int]);
            return false;
        }
        k = k + 1;
    }
    assert(h@.take(p@.len() as int) =~= p@);
    true
}

/// The tree names along the path of a bucket: the table number in at least
/// four hexadecimal digits, the first two characters of the signature's
/// bucket name (or all of it, when shorter), and the bucket name.
pub fn bucket_path(table: u64, signature: u64, bits: usize) -> (r: (String, String, String))
    requires
        bits <= 64,
    ensures
        r.0@ == signature_text(table, 16),
        r.2@ == signature_text(signature, bits as int),
        r.1@ == signature_text(signature, bits as int).take(
            if signature_text(signature, bits as int).len() < 2 { signature_text(signature, bits as int).len() as int } else { 2 },
        ),
{
    let table_name = signature_name(table, 16);
    let name = signature_name(signature, bits);
    let n = name.unicode_len();
    let cut = if n < 2 { n } else { 2 };
    let prefix = name.as_str().substring_char(0, cut).to_owned();
    (table_name, prefix, name)
}

/// One change to a hash-table bucket: a point leaves the bucket of a
/// signature, or enters it.
#[derive(Debug, Clone, Copy, PartialEq, Eq)]
pub enum BucketEdit {
    /// The point leaves the bucket of this signature.
    Remove(u64),
    /// The point enters the bucket of this signature.
    Insert(u64),
}

/// The bucket changes of one point in one table, given its signature before
/// and after a change (`None` where the point is absent): it leaves its old
/// bucket unless its signature stays the same, then enters its new bucket,
/// whose entry is rewritten to the new point.
pub open spec fn bucket_edit_plan(old: Option<u64>, new: Option<u64>) -> Seq<BucketEdit> {
    let leave = match old {
        Some(o) => if new == Some(o) { Seq::empty() } else { seq![BucketEdit::Remove(o)] },
        None => Seq::empty(),
    };
    let enter = match new {
        Some(n) => seq![BucketEdit::Insert(n)],
        None => Seq::empty(),
    };
    leave + enter
}

/// The bucket changes of one point in one table; see `bucket_edit_plan`.
pub fn bucket_edits(old: Option<u64>, new: Option<u64>) -> (r: Vec<BucketEdit>)
    ensures
        r@ == bucket_edit_plan(old, new),
{
    let mut r: Vec<BucketEdit> = Vec::new();
    match old {
        Some(o) => {
            let same = match new {
                Some(n) => n == o,
                None => false,
            };
            if !same {
                r.push(BucketEdit::Remove(o));
            }
        },
        None => {},
    }
    match new {
        Some(n) => r.push(BucketEdit::Insert(n)),
        None => {},
    }
    assert(r@ =~= bucket_edit_plan(old, new));
    r
}

} // verus!
