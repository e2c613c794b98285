use vstd::prelude::*;

use crate::distance::{be_value, Distance, NodeId};

verus! {

/// The bit that marks a short distance column as already updated.
pub const FLAG: u64 = 0x1_0000_0000;

/// Settings of the distance column update: the database, the file with the
/// node's private key, and into how many ranges the update is split.
#[derive(Debug)]
pub struct Config {
    pub db_path: String,
    pub private_key_path: Option<String>,
    pub split: usize,
}

/// The top 32 bits of a node id.
pub fn short_node_id(node_id: &NodeId) -> (r: u32)
    ensures
        r == be_value(node_id@.take(4)),
{
    let d = Distance { bytes: node_id.raw };
    d.big_endian_u32()
}

/// The value a node's short distances are combined with: the update flag
/// together with the top 32 bits of the node id.
pub fn update_value(node_id: &NodeId) -> (r: u64)
    ensures
        r == FLAG + be_value(node_id@.take(4)),
{
    let short = short_node_id(node_id);
    let x = short as u64;
    assert(FLAG ^ x == FLAG + x) by (bit_vector)
        requires
            x < 0x1_0000_0000u64,
            FLAG == 0x1_0000_0000u64,
    ;
    FLAG ^ x
}

/// Whether a node id falls in bucket `i` of the key generator: its top five
/// bits equal twice `i`.
pub fn in_bucket(node_id: &NodeId, i: u8) -> (r: bool)
    requires
        i < 16,
    ensures
        r == (node_id@[0] / 8 == 2 * i),
{
    let b = node_id.raw[0];
    assert(b >> 3u8 == b / 8) by (bit_vector);
    assert(i << 1u8 == 2 * i) by (bit_vector)
        requires
            i < 16,
    ;
    (b >> 3u8) == (i << 1u8)
}

/// The first four nibbles of a trie path (missing ones count as zero) read
/// as a 16-bit number, as progress is reported.
pub open spec fn path_prefix(nibbles: Seq<u8>, k: nat) -> u32
    decreases k,
{
    if k == 0 {
        0
    } else {
        let n: u8 = if k - 1 < nibbles.len() {
            nibbles[k - 1]
        } else {
            0
        };
        ((path_prefix(nibbles, (k - 1) as nat) << 4u32) | (n as u32)) as u32
    }
}

/// For nibbles below 16, the reported progress is the first four nibbles
/// (missing ones as zero) read as a base-16 number, most significant first.
pub proof fn law_path_prefix_value(nibbles: Seq<u8>)
    requires
        forall|i: int| 0 <= i < nibbles.len() ==> #[trigger] nibbles[i] < 16,
    ensures
        ({
            let n = |i: int| if i < nibbles.len() { nibbles[i] as nat } else { 0nat };
            path_prefix(nibbles, 4) == n(0) * 4096 + n(1) * 256 + n(2) * 16 + n(3)
        }),
{
    let a: u32 = (if 0 < nibbles.len() { nibbles[0] } else { 0u8 }) as u32;
    let b: u32 = (if 1 < nibbles.len() { nibbles[1] } else { 0u8 }) as u32;
    let c: u32 = (if 2 < nibbles.len() { nibbles[2] } else { 0u8 }) as u32;
    let d: u32 = (if 3 < nibbles.len() { nibbles[3] } else { 0u8 }) as u32;
    assert(path_prefix(nibbles, 0) == 0);
    assert(path_prefix(nibbles, 1) == ((0u32 << 4u32) | a) as u32);
    assert(path_prefix(nibbles, 2) == ((path_prefix(nibbles, 1) << 4u32) | b) as u32);
    assert(path_prefix(nibbles, 3) == ((path_prefix(nibbles, 2) << 4u32) | c) as u32);
    assert(path_prefix(nibbles, 4) == ((path_prefix(nibbles, 3) << 4u32) | d) as u32);
    let p1 = path_prefix(nibbles, 1);
    let p2 = path_prefix(nibbles, 2);
    let p3 = path_prefix(nibbles, 3);
    let p4 = path_prefix(nibbles, 4);
    assert(p4 == a * 4096 + b * 256 + c * 16 + d) by (bit_vector)
        requires
            a < 16,
            b < 16,
            c < 16,
            d < 16,
            p1 == ((0u32 << 4u32) | a) as u32,
            p2 == ((p1 << 4u32) | b) as u32,
            p3 == ((p2 << 4u32) | c) as u32,
            p4 == ((p3 << 4u32) | d) as u32,
    ;
}

/// The number of content items that the export gathers before writing
/// them to the content store.
pub const CACHE_SIZE: usize = 10_000_000;

/// The columns of a content store row computed from its parts: the top 32
/// bits of the content id (its distance column) and the size of id, key and
/// value together.
pub fn store_row_fields(id: &[u8; 32], key_len: usize, value_len: usize) -> (r: (u32, usize))
    requires
        32 + key_len + value_len <= usize::MAX,
    ensures
        r.0 == be_value(id@.take(4)),
        r.1 == 32 + key_len + value_len,
{
    let d = Distance { bytes: *id };
    (d.big_endian_u32(), 32 + key_len + value_len)
}

/// The progress of a trie walk as the export reports it: the first four
/// nibbles of the current path as a 16-bit number.
pub fn progress_prefix(nibbles: &Vec<u8>) -> (r: u32)
    ensures
        r == path_prefix(nibbles@, 4),
{
    let mut path: u32 = 0;
    let mut k: usize = 0;
    while k < 4
        invariant
            0 <= k <= 4,
            path == path_prefix(nibbles@, k as nat),
        decreases 4 - k,
    {
        let n: u8 = if k < nibbles.len() {
            nibbles[k]
        } else {
            0
        };
        path = (path << 4u32) | (n as u32);
        k = k + 1;
    }
    path
}

/// `256` to the power `n`.
pub open spec fn pow256(n: nat) -> nat
    decreases n,
{
    if n == 0 {
        1
    } else {
        pow256((n - 1) as nat) * 256
    }
}

/// The largest unsigned 256-bit integer.
pub open spec fn u256_max() -> nat {
    (pow256(32) - 1) as nat
}

/// A string of `0xff` bytes is the largest value of its length.
proof fn lemma_all_ones(s: Seq<u8>)
    requires
        forall|i: int| 0 <= i < s.len() ==> s[i] == 0xff,
    ensures
        be_value(s) == pow256(s.len()) - 1,
    decreases s.len(),
{
    if s.len() > 0 {
        lemma_all_ones(s.drop_last());
    }
}

/// A string of zero bytes but for a last byte `1` has the value one.
proof fn lemma_one(s: Seq<u8>)
    requires
        s.len() >= 1,
        forall|i: int| 0 <= i < s.len() - 1 ==> s[i] == 0,
        s[s.len() - 1] == 1,
    ensures
        be_value(s) == 1,
{
    let t = s.drop_last();
    assert(be_value(t) == 0) by {
        lemma_zeros(t);
    }
}

proof fn lemma_zeros(s: Seq<u8>)
    requires
        forall|i: int| 0 <= i < s.len() ==> s[i] == 0,
    ensures
        be_value(s) == 0,
    decreases s.len(),
{
    if s.len() > 0 {
        lemma_zeros(s.drop_last());
    }
}

/// The quotient of two unsigned 256-bit integers, with `ruint`'s `Uint`
/// division (`self / rhs`, rounding down); it panics on a zero divisor,
/// which the `requires` leaves out. Claimed: the big-endian result is the
/// rounded-down quotient.
#[verifier::external_body]
fn u256_div(a: [u8; 32], b: usize) -> (r: [u8; 32])
    requires
        b > 0,
    ensures
        be_value(r@) == be_value(a@) / (b as nat),
{
    let q = ruint::aliases::U256::from_be_bytes(a) / ruint::aliases::U256::from(b);
    q.to_be_bytes::<32>()
}

/// `ruint`'s `Uint::saturating_add`: the sum, or the largest value where
/// the sum does not fit. Claimed of the big-endian bytes: exactly that.
#[verifier::external_body]
fn u256_saturating_add(a: [u8; 32], b: [u8; 32]) -> (r: [u8; 32])
    ensures
        be_value(r@) == if be_value(a@) + be_value(b@) <= u256_max() {
            be_value(a@) + be_value(b@)
        } else {
            u256_max()
        },
{
    let sum = ruint::aliases::U256::from_be_bytes(a).saturating_add(
        ruint::aliases::U256::from_be_bytes(b),
    );
    sum.to_be_bytes::<32>()
}

/// The content id ranges of the column update, from `start` on: each
/// `step + 1` ids long (the last cut at the largest id), the next one
/// starting right after; no range starts at the largest id.
pub open spec fn key_ranges(start: nat, step: nat) -> Seq<(nat, nat)>
    decreases u256_max() - start,
{
    if start >= u256_max() {
        Seq::empty()
    } else {
        let end = if start + step <= u256_max() {
            start + step
        } else {
            u256_max()
        };
        let next = if end + 1 <= u256_max() {
            end + 1
        } else {
            u256_max()
        };
        seq![(start, end)] + key_ranges(next, step)
    }
}

pub open spec fn range_values(v: Seq<([u8; 32], [u8; 32])>) -> Seq<(nat, nat)> {
    v.map_values(|r: ([u8; 32], [u8; 32])| (be_value(r.0@), be_value(r.1@)))
}

/// The content id ranges the column update runs over, one after the other:
/// the whole id space cut into ranges of `u256_max() / split + 1` ids.
pub fn update_ranges(split: usize) -> (r: Vec<([u8; 32], [u8; 32])>)
    requires
        split > 0,
    ensures
        range_values(r@) == key_ranges(0, u256_max() / (split as nat)),
{
    let max = [0xffu8; 32];
    let mut one = [0u8; 32];
    one[31] = 1;
    proof {
        lemma_all_ones(max@);
        lemma_one(one@);
    }
    let step = u256_div(max, split);
    let ghost step_v = u256_max() / (split as nat);
    let mut start = [0u8; 32];
    proof {
        lemma_zeros(start@);
    }
    let mut out: Vec<([u8; 32], [u8; 32])> = Vec::new();
    let mut more = Distance { bytes: start }.lt(&Distance { bytes: max });
    proof {
        assert(range_values(out@) =~= Seq::<(nat, nat)>::empty());
        assert(Seq::<(nat, nat)>::empty() + key_ranges(0, step_v) =~= key_ranges(0, step_v));
    }
    while more
        invariant
            be_value(max@) == u256_max(),
            be_value(one@) == 1,
            be_value(step@) == step_v,
            be_value(start@) <= u256_max(),
            more == (be_value(start@) < u256_max()),
            range_values(out@) + key_ranges(be_value(start@), step_v) == key_ranges(0, step_v),
        decreases u256_max() - be_value(start@),
    {
        let ghost before = range_values(out@);
        let ghost s = be_value(start@);
        let end = u256_saturating_add(start, step);
        out.push((start, end));
        let next = u256_saturating_add(end, one);
        proof {
            assert(range_values(out@) =~= before.push((s, be_value(end@))));
            assert(key_ranges(s, step_v) == seq![(s, be_value(end@))] + key_ranges(be_value(next@), step_v));
            assert(before.push((s, be_value(end@))) + key_ranges(be_value(next@), step_v) =~= before + key_ranges(s, step_v));
        }
        start = next;
        more = Distance { bytes: start }.lt(&Distance { bytes: max });
    }
    proof {
        assert(key_ranges(be_value(start@), step_v) =~= Seq::<(nat, nat)>::empty());
        assert(range_values(out@) + Seq::<(nat, nat)>::empty() =~= range_values(out@));
    }
    out
}

/// The ranges of the column update cover the ids from `start` on without
/// gap or overlap: the first starts at `start`, each starts right after the
/// one before it ends, none is empty or longer than `step + 1` ids, and the
/// last ends at the largest id or just before it.
pub proof fn law_key_ranges_cover(start: nat, step: nat)
    requires
        start < u256_max(),
    ensures
        ({
            let r = key_ranges(start, step);
            &&& r.len() > 0
            &&& r[0].0 == start
            &&& r[r.len() - 1].1 + 1 >= u256_max()
            &&& forall|i: int|
                0 <= i < r.len() ==> #[trigger] r[i].0 <= r[i].1 <= u256_max() && r[i].1 - r[i].0 <= step
            &&& forall|i: int| 0 <= i < r.len() - 1 ==> #[trigger] r[i + 1].0 == r[i].1 + 1
        }),
    decreases u256_max() - start,
{
    let r = key_ranges(start, step);
    let end = if start + step <= u256_max() { start + step } else { u256_max() };
    let next = if end + 1 <= u256_max() { end + 1 } else { u256_max() };
    let rest = key_ranges(next, step);
    assert(r == seq![(start, end)] + rest);
    if next < u256_max() {
        law_key_ranges_cover(next, step);
        assert forall|i: int| 0 <= i < r.len() - 1 implies #[trigger] r[i + 1].0 == r[i].1 + 1 by {
            assert(r[i + 1] == rest[i]);
            if i > 0 {
                let j = i - 1;
                assert(r[i] == rest[j]);
                assert(rest[j + 1].0 == rest[j].1 + 1);
            }
        }
        assert forall|i: int| 0 <= i < r.len() implies #[trigger] r[i].0 <= r[i].1 <= u256_max() && r[i].1 - r[i].0 <= step by {
            if i > 0 {
                assert(r[i] == rest[i - 1]);
            }
        }
        assert(r[r.len() - 1] == rest[rest.len() - 1]);
    } else {
        assert(rest.len() == 0);
    }
}

/// The node id that a secp256k1 secret key gives, if the bytes are a valid
/// secret key.
pub uninterp spec fn secret_key_node_id(key: Seq<u8>) -> Option<Seq<u8>>;

/// Imports the key with `discv5::enr::CombinedKey::secp256k1_from_bytes`,
/// builds the key's empty record with `Enr::empty` and reads its node id.
/// Claimed: the outcome is `secret_key_node_id` of the key bytes, a
/// function of the bytes alone (`None` where the key or the record is
/// refused).
#[verifier::external_body]
fn node_id_from_secret_key(key: &[u8; 32]) -> (r: Option<NodeId>)
    ensures
        match secret_key_node_id(key@) {
            None => r is None,
            Some(id) => r is Some && r->0@ == id,
        },
{
    let mut bytes = *key;
    match discv5::enr::CombinedKey::secp256k1_from_bytes(&mut bytes) {
        Ok(secret) => match discv5::Enr::empty(&secret) {
            Ok(enr) => Some(NodeId { raw: enr.node_id().raw() }),
            Err(_) => None,
        },
        Err(_) => None,
    }
}

/// The value the short distances are combined with for the node of a
/// secret key; `None` where the key is not a valid secret key.
pub fn update_value_for_key(key: &[u8; 32]) -> (r: Option<u64>)
    ensures
        match secret_key_node_id(key@) {
            None => r is None,
            Some(id) => r matches Some(v) && v == FLAG + be_value(id.take(4)),
        },
{
    match node_id_from_secret_key(key) {
        Some(node_id) => Some(update_value(&node_id)),
        None => None,
    }
}

/// Unicode white space (the `White_Space` property), as trimmed from the
/// text of a key file.
pub open spec fn is_white_space(c: char) -> bool {
    ||| ('\u{9}' <= c && c <= '\u{d}')
    ||| c == ' '
    ||| c == '\u{85}'
    ||| c == '\u{a0}'
    ||| c == '\u{1680}'
    ||| ('\u{2000}' <= c && c <= '\u{200a}')
    ||| c == '\u{2028}'
    ||| c == '\u{2029}'
    ||| c == '\u{202f}'
    ||| c == '\u{205f}'
    ||| c == '\u{3000}'
}

/// A text without its leading white space.
pub open spec fn trim_start_spec(s: Seq<char>) -> Seq<char>
    decreases s.len(),
{
    if s.len() > 0 && is_white_space(s[0]) {
        trim_start_spec(s.drop_first())
    } else {
        s
    }
}

/// A text without its trailing white space.
pub open spec fn trim_end_spec(s: Seq<char>) -> Seq<char>
    decreases s.len(),
{
    if s.len() > 0 && is_white_space(s.last()) {
        trim_end_spec(s.drop_last())
    } else {
        s
    }
}

/// A text without leading and trailing white space.
pub open spec fn trim_spec(s: Seq<char>) -> Seq<char> {
    trim_end_spec(trim_start_spec(s))
}

/// The value of a hexadecimal digit (either case).
pub open spec fn hex_value(c: char) -> Option<u8> {
    if '0' <= c && c <= '9' {
        Some((c as u32 - '0' as u32) as u8)
    } else if 'a' <= c && c <= 'f' {
        Some((c as u32 - 'a' as u32 + 10) as u8)
    } else if 'A' <= c && c <= 'F' {
        Some((c as u32 - 'A' as u32 + 10) as u8)
    } else {
        None
    }
}

/// A text without its `0x` prefix, if it has one.
pub open spec fn hex_body(t: Seq<char>) -> Seq<char> {
    if t.len() >= 2 && t[0] == '0' && t[1] == 'x' {
        t.skip(2)
    } else {
        t
    }
}

/// The 32 bytes written as 64 hexadecimal digits, after an optional `0x`.
pub open spec fn hex_key(t: Seq<char>) -> Option<Seq<u8>> {
    let b = hex_body(t);
    if b.len() == 64 && forall|i: int| 0 <= i < 64 ==> #[trigger] hex_value(b[i]) is Some {
        Some(Seq::new(32, |i: int| (16 * hex_value(b[2 * i])->0 + hex_value(b[2 * i + 1])->0) as u8))
    } else {
        None
    }
}

fn hex_digit(c: char) -> (r: Option<u8>)
    ensures
        r == hex_value(c),
{
    if '0' <= c && c <= '9' {
        Some((c as u32 - '0' as u32) as u8)
    } else if 'a' <= c && c <= 'f' {
        Some((c as u32 - 'a' as u32 + 10) as u8)
    } else if 'A' <= c && c <= 'F' {
        Some((c as u32 - 'A' as u32 + 10) as u8)
    } else {
        None
    }
}

fn white_space(c: char) -> (r: bool)
    ensures
        r == is_white_space(c),
{
    ('\u{9}' <= c && c <= '\u{d}') || c == ' ' || c == '\u{85}' || c == '\u{a0}' || c == '\u{1680}'
        || ('\u{2000}' <= c && c <= '\u{200a}') || c == '\u{2028}' || c == '\u{2029}' || c
        == '\u{202f}' || c == '\u{205f}' || c == '\u{3000}'
}

proof fn lemma_trim_start_skip(s: Seq<char>, i: int)
    requires
        0 <= i <= s.len(),
        forall|j: int| 0 <= j < i ==> is_white_space(s[j]),
    ensures
        trim_start_spec(s) == trim_start_spec(s.skip(i)),
    decreases i,
{
    if i > 0 {
        assert(is_white_space(s[0]));
        assert(s.drop_first().skip(i - 1) =~= s.skip(i));
        assert forall|j: int| 0 <= j < i - 1 implies is_white_space(s.drop_first()[j]) by {
            assert(s.drop_first()[j] == s[j + 1]);
        }
        lemma_trim_start_skip(s.drop_first(), i - 1);
    } else {
        assert(s.skip(0) =~= s);
    }
}

proof fn lemma_trim_end_take(s: Seq<char>, j: int)
    requires
        0 <= j <= s.len(),
        forall|k: int| j <= k < s.len() ==> is_white_space(s[k]),
    ensures
        trim_end_spec(s) == trim_end_spec(s.take(j)),
    decreases s.len() - j,
{
    if j < s.len() {
        assert(s.drop_last().take(j) =~= s.take(j));
        lemma_trim_end_take(s.drop_last(), j);
    } else {
        assert(s.take(j) =~= s);
    }
}

/// Why the text of a key file gives no key.
#[derive(Clone, Copy, Debug, PartialEq, Eq, Structural)]
pub enum KeyTextError {
    /// Not 32 bytes in hexadecimal.
    InvalidHex,
    /// Not a valid secp256k1 secret key.
    InvalidKey,
}

/// The secret key written in a key file: the text without surrounding
/// white space is 64 hexadecimal digits, after an optional `0x`.
pub fn parse_secret_key(text: &str) -> (r: Option<[u8; 32]>)
    ensures
        match hex_key(trim_spec(text@)) {
            None => r is None,
            Some(k) => r matches Some(b) && b@ == k,
        },
{
    let n = text.unicode_len();
    let mut i: usize = 0;
    while i < n && white_space(text.get_char(i))
        invariant
            n == text@.len(),
            0 <= i <= n,
            forall|j: int| 0 <= j < i ==> is_white_space(text@[j]),
        decreases n - i,
    {
        i = i + 1;
    }
    let mut j: usize = n;
    while j > i && white_space(text.get_char(j - 1))
        invariant
            n == text@.len(),
            0 <= i <= j <= n,
            forall|k: int| j <= k < n ==> is_white_space(text@[k]),
        decreases j - i,
    {
        j = j - 1;
    }
    let ghost t = text@.subrange(i as int, j as int);
    proof {
        lemma_trim_start_skip(text@, i as int);
        let u = text@.skip(i as int);
        if i < n && i < j {
            assert(!is_white_space(u[0]));
            assert(trim_start_spec(u) == u);
        } else {
            if i < n {
                assert(i == j);
                assert(!is_white_space(u[0]));
                assert(trim_start_spec(u) == u);
            } else {
                assert(u.len() == 0);
            }
        }
        assert(forall|k: int| j - i <= k < u.len() ==> is_white_space(u[k]));
        lemma_trim_end_take(u, j - i);
        assert(u.take(j - i) =~= t);
        if j > i {
            assert(!is_white_space(t.last()));
        }
        assert(trim_end_spec(t) == t);
        assert(trim_spec(text@) == t);
    }
    let mut start = i;
    if j - i >= 2 && text.get_char(i) == '0' && text.get_char(i + 1) == 'x' {
        start = i + 2;
    }
    let ghost b = text@.subrange(start as int, j as int);
    proof {
        if t.len() >= 2 && t[0] == '0' && t[1] == 'x' {
            assert(t.skip(2) =~= b);
        } else {
            assert(t =~= b);
        }
    }
    if j - start != 64 {
        return None;
    }
    let mut key = [0u8; 32];
    let mut k: usize = 0;
    while k < 32
        invariant
            j - start == 64,
            start <= j <= n,
            n == text@.len(),
            b == text@.subrange(start as int, j as int),
            b == hex_body(trim_spec(text@)),
            0 <= k <= 32,
            key@.len() == 32,
            forall|x: int| 0 <= x < 2 * k ==> #[trigger] hex_value(b[x]) is Some,
            forall|x: int|
                0 <= x < k ==> #[trigger] key@[x] == (16 * hex_value(b[2 * x])->0 + hex_value(
                    b[2 * x + 1],
                )->0) as u8,
        decreases 32 - k,
    {
        let hi = hex_digit(text.get_char(start + 2 * k));
        let lo = hex_digit(text.get_char(start + 2 * k + 1));
        match (hi, lo) {
            (Some(h), Some(l)) => {
                assert(b[2 * k] == text@[start + 2 * k]);
                assert(b[2 * k + 1] == text@[start + 2 * k + 1]);
                key[k] = 16 * h + l;
            },
            _ => {
                proof {
                    assert(b[2 * k] == text@[start + 2 * k]);
                    assert(b[2 * k + 1] == text@[start + 2 * k + 1]);
                    if hi is None {
                        assert(hex_value(b[2 * k]) is None);
                    } else {
                        assert(hex_value(b[2 * k + 1]) is None);
                    }
                    assert(hex_key(trim_spec(text@)) is None);
                }
                return None;
            },
        }
        k = k + 1;
    }
    proof {
        assert(forall|i: int| 0 <= i < 64 ==> #[trigger] hex_value(b[i]) is Some);
        assert(key@ =~= Seq::new(32, |i: int| (16 * hex_value(b[2 * i])->0 + hex_value(b[2 * i + 1])->0) as u8));
    }
    Some(key)
}

/// The update value for the key written in a key file: an error where the
/// text is not 32 bytes in hexadecimal or not a valid secret key.
pub fn update_value_for_key_text(text: &str) -> (r: Result<u64, KeyTextError>)
    ensures
        match hex_key(trim_spec(text@)) {
            None => r == Err::<u64, KeyTextError>(KeyTextError::InvalidHex),
            Some(k) => match secret_key_node_id(k) {
                None => r == Err::<u64, KeyTextError>(KeyTextError::InvalidKey),
                Some(id) => r == Ok::<u64, KeyTextError>((FLAG + be_value(id.take(4))) as u64),
            },
        },
{
    match parse_secret_key(text) {
        None => Err(KeyTextError::InvalidHex),
        Some(key) => match update_value_for_key(&key) {
            Some(v) => Ok(v),
            None => Err(KeyTextError::InvalidKey),
        },
    }
}

} // verus!
