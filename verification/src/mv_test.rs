use vstd::prelude::*;
use rand::RngExt;
use rand::seq::SliceRandom;
use std::collections::HashSet;
use crate::mv_record_model::record_point::Key;
use crate::mv_crud_model::crud_operation::CRUDOperation;
use crate::mv_crud_model::crud_operation_result::CRUDOperationResult;
use crate::mv_tree::mvtree::MVTreeSt;
use crate::mv_query::dispatch::{newest_live, write_refused, LeafWrite};
use crate::mv_query::rand_query::{random_in, RAND_ATTEMPTS_MAX};
use crate::mv_page_model::Attempts;

verus! {

/// Pages of the standard tree: entries per index page.
pub const FAN_OUT: usize = 125;

/// Pages of the standard tree: records per leaf page.
pub const NUM_RECORDS: usize = 125;

/// Payload of the standard tree.
pub type Payload = u64;

pub const PAYLOAD_STR_LEN_MIN: usize = 704;
pub const PAYLOAD_STR_LEN_MAX: usize = 7078;
pub const PAYLOAD_ATTR_STR_COUNT: usize = 67;

/// The key after `k`, saturating at the largest key.
pub open spec fn spec_next_key(k: u64) -> u64 {
    if k == u64::MAX { u64::MAX } else { (k + 1) as u64 }
}

/// The key before `k`, saturating at the smallest key.
pub open spec fn spec_prev_key(k: u64) -> u64 {
    if k == 0 { 0 } else { (k - 1) as u64 }
}

/// Stepping a key below the largest one up and back down gives it back;
/// stepping down from the smallest key stays there.
pub proof fn law_key_step_roundtrip(k: u64)
    requires
        k < u64::MAX,
    ensures
        spec_prev_key(spec_next_key(k)) == k,
        spec_prev_key(0) == 0,
{
}

/// The key after `k`, saturating at the largest key.
pub fn inc_key(k: Key) -> (r: Key)
    ensures
        r == spec_next_key(k),
{
    match k.checked_add(1) {
        Some(v) => v,
        None => Key::MAX,
    }
}

/// The key before `k`, saturating at the smallest key.
pub fn dec_key(k: Key) -> (r: Key)
    ensures
        r == spec_prev_key(k),
{
    match k.checked_sub(1) {
        Some(v) => v,
        None => Key::MIN,
    }
}

/// True for an ASCII letter or digit.
pub open spec fn is_alphanumeric(c: char) -> bool {
    ('a' <= c <= 'z') || ('A' <= c <= 'Z') || ('0' <= c <= '9')
}

/// `rand::RngExt::random_range` on the thread generator, over the inclusive
/// range `min..=max`: the crate documents a value in the range and a panic on
/// an empty range (excluded by `requires`). Which value is left to chance.
#[verifier::external_body]
fn random_len(min: usize, max: usize) -> (r: usize)
    requires
        min <= max,
    ensures
        min <= r <= max,
{
    rand::rng().random_range(min..=max)
}

/// `rand::RngExt::sample` of `rand::distr::Alphanumeric` on the thread
/// generator: the crate documents a byte drawn from the ASCII letters and
/// digits. Which one is left to chance.
#[verifier::external_body]
fn random_alphanumeric() -> (r: char)
    ensures
        is_alphanumeric(r),
{
    char::from(rand::rng().sample(rand::distr::Alphanumeric))
}

/// `String::push` of std: appends one character.
#[verifier::external_body]
pub(crate) fn push_char(s: &mut String, c: char)
    ensures
        final(s)@ == old(s)@.push(c),
{
    s.push(c);
}

/// A random string of ASCII letters and digits whose length lies between
/// `len_min` and `len_max`.
pub fn rnd_str(len_min: usize, len_max: usize) -> (r: String)
    requires
        len_min <= len_max,
    ensures
        len_min <= r@.len() <= len_max,
        forall|i: int| 0 <= i < r@.len() ==> is_alphanumeric(#[trigger] r@[i]),
{
    let len = random_len(len_min, len_max);
    let mut s = String::new();
    let mut i: usize = 0;
    while i < len
        invariant
            i <= len,
            s@.len() == i,
            forall|j: int| 0 <= j < s@.len() ==> is_alphanumeric(#[trigger] s@[j]),
        decreases len - i,
    {
        let c = random_alphanumeric();
        push_char(&mut s, c);
        i = i + 1;
    }
    s
}

/// `items` random strings, each made as by `rnd_str`.
pub fn rnd_str_vec(items: usize, str_len_min: usize, str_len_max: usize) -> (r: Vec<String>)
    requires
        str_len_min <= str_len_max,
    ensures
        r@.len() == items,
        forall|k: int| 0 <= k < items ==> str_len_min <= (#[trigger] r@[k])@.len() <= str_len_max,
{
    let mut v: Vec<String> = Vec::new();
    let mut k: usize = 0;
    while k < items
        invariant
            k <= items,
            str_len_min <= str_len_max,
            v@.len() == k,
            forall|j: int| 0 <= j < k ==> str_len_min <= (#[trigger] v@[j])@.len() <= str_len_max,
        decreases items - k,
    {
        v.push(rnd_str(str_len_min, str_len_max));
        k = k + 1;
    }
    v
}

/// A payload made of string attributes.
pub struct PayloadData {
    pub attributes: Vec<String>,
}

/// A boxed payload.
pub struct PayloadIndirection(pub Box<PayloadData>);

impl PayloadData {
    /// Attribute `i`; only for an existing attribute.
    pub fn attr(&self, i: usize) -> (r: &str)
        requires
            i < self.attributes@.len(),
        ensures
            r@ == self.attributes@[i as int]@,
    {
        self.attributes[i].as_str()
    }
}

impl PayloadIndirection {
    /// A payload of `PAYLOAD_ATTR_STR_COUNT` random attributes, each between
    /// `PAYLOAD_STR_LEN_MIN` and `PAYLOAD_STR_LEN_MAX` characters long.
    pub fn default() -> (r: Self)
        ensures
            r.0.attributes@.len() == PAYLOAD_ATTR_STR_COUNT,
            forall|k: int| 0 <= k < PAYLOAD_ATTR_STR_COUNT ==> PAYLOAD_STR_LEN_MIN <= (
            #[trigger] r.0.attributes@[k])@.len() <= PAYLOAD_STR_LEN_MAX,
    {
        PayloadIndirection(
            Box::new(
                PayloadData {
                    attributes: rnd_str_vec(PAYLOAD_ATTR_STR_COUNT, PAYLOAD_STR_LEN_MIN, PAYLOAD_STR_LEN_MAX),
                },
            ),
        )
    }
}

/// Character of a decimal digit.
pub open spec fn digit_char(d: int) -> char {
    if d == 0 { '0' }
    else if d == 1 { '1' }
    else if d == 2 { '2' }
    else if d == 3 { '3' }
    else if d == 4 { '4' }
    else if d == 5 { '5' }
    else if d == 6 { '6' }
    else if d == 7 { '7' }
    else if d == 8 { '8' }
    else { '9' }
}

/// Decimal notation of `n`, without leading zeros.
pub open spec fn decimal(n: nat) -> Seq<char>
    decreases n,
{
    if n < 10 {
        seq![digit_char(n as int)]
    } else {
        decimal(n / 10).push(digit_char((n % 10) as int))
    }
}

/// Parts joined by `" + "`.
pub open spec fn join_plus(parts: Seq<Seq<char>>) -> Seq<char>
    decreases parts.len(),
{
    if parts.len() == 0 {
        Seq::empty()
    } else if parts.len() == 1 {
        parts[0]
    } else {
        join_plus(parts.drop_last()) + seq![' ', '+', ' '] + parts.last()
    }
}

/// `"<count> <suffix>"`.
pub open spec fn counted(count: nat, suffix: Seq<char>) -> Seq<char> {
    decimal(count) + seq![' '] + suffix
}

/// The parts of the spelled-out count `i`: billions, millions and thousands
/// with their suffixes, then the remainder, each present only when non-zero.
pub open spec fn insertion_parts(i: nat) -> Seq<Seq<char>> {
    let b = i / 1_000_000_000;
    let r1 = i % 1_000_000_000;
    let m = r1 / 1_000_000;
    let r2 = r1 % 1_000_000;
    let k = r2 / 1_000;
    let r3 = r2 % 1_000;
    (if b > 0 { seq![counted(b, seq!['B'])] } else { Seq::empty() })
        + (if m > 0 { seq![counted(m, seq!['M', 'i', 'o'])] } else { Seq::empty() })
        + (if k > 0 { seq![counted(k, seq!['K'])] } else { Seq::empty() })
        + (if r3 > 0 { seq![decimal(r3)] } else { Seq::empty() })
}

/// The text `format_insertions` produces for `i`.
pub open spec fn spec_format_insertions(i: nat) -> Seq<char> {
    if insertion_parts(i).len() == 0 {
        seq!['0']
    } else {
        join_plus(insertion_parts(i))
    }
}

fn push_digit(s: &mut String, d: usize)
    requires
        d < 10,
    ensures
        final(s)@ == old(s)@.push(digit_char(d as int)),
{
    let c = if d == 0 { '0' }
        else if d == 1 { '1' }
        else if d == 2 { '2' }
        else if d == 3 { '3' }
        else if d == 4 { '4' }
        else if d == 5 { '5' }
        else if d == 6 { '6' }
        else if d == 7 { '7' }
        else if d == 8 { '8' }
        else { '9' };
    push_char(s, c);
}

/// Appends the decimal notation of `n`.
fn push_decimal(s: &mut String, n: usize)
    ensures
        final(s)@ == old(s)@ + decimal(n as nat),
    decreases n,
{
    if n < 10 {
        push_digit(s, n);
        proof {
            assert(old(s)@.push(digit_char(n as int)) =~= old(s)@ + decimal(n as nat));
        }
    } else {
        push_decimal(s, n / 10);
        push_digit(s, n % 10);
        proof {
            assert(final(s)@ =~= old(s)@ + decimal(n as nat));
        }
    }
}

/// Appends `" + "` when `out` already holds a part.
fn push_separator(out: &mut String, has_parts: bool)
    ensures
        has_parts ==> final(out)@ == old(out)@ + seq![' ', '+', ' '],
        !has_parts ==> final(out)@ == old(out)@,
{
    if has_parts {
        push_char(out, ' ');
        push_char(out, '+');
        push_char(out, ' ');
        proof {
            assert(final(out)@ =~= old(out)@ + seq![' ', '+', ' ']);
        }
    }
}

proof fn lemma_join_push(parts: Seq<Seq<char>>, p: Seq<char>)
    ensures
        parts.len() == 0 ==> join_plus(parts.push(p)) == p,
        parts.len() > 0 ==> join_plus(parts.push(p)) == join_plus(parts) + seq![' ', '+', ' '] + p,
{
    assert(parts.push(p).drop_last() =~= parts);
    if parts.len() == 0 {
        assert(parts.push(p)[0] == p);
    }
}

/// Spells out a count of insertions, e.g. `1 B + 2 Mio + 3 K + 4`; zero is `0`.
pub fn format_insertions(i: usize) -> (r: String)
    ensures
        r@ == spec_format_insertions(i as nat),
{
    let mut out = String::new();
    let mut has_parts = false;
    let ghost mut parts: Seq<Seq<char>> = Seq::empty();
    let b = i / 1_000_000_000;
    let r1 = i % 1_000_000_000;
    let m = r1 / 1_000_000;
    let r2 = r1 % 1_000_000;
    let k = r2 / 1_000;
    let r3 = r2 % 1_000;
    if b > 0 {
        push_separator(&mut out, has_parts);
        push_decimal(&mut out, b);
        push_char(&mut out, ' ');
        push_char(&mut out, 'B');
        proof {
            lemma_join_push(parts, counted(b as nat, seq!['B']));
            parts = parts.push(counted(b as nat, seq!['B']));
            assert(out@ =~= join_plus(parts));
        }
        has_parts = true;
    }
    if m > 0 {
        let ghost before = out@;
        push_separator(&mut out, has_parts);
        push_decimal(&mut out, m);
        push_char(&mut out, ' ');
        push_char(&mut out, 'M');
        push_char(&mut out, 'i');
        push_char(&mut out, 'o');
        proof {
            lemma_join_push(parts, counted(m as nat, seq!['M', 'i', 'o']));
            parts = parts.push(counted(m as nat, seq!['M', 'i', 'o']));
            assert(out@ =~= join_plus(parts));
        }
        has_parts = true;
    }
    if k > 0 {
        push_separator(&mut out, has_parts);
        push_decimal(&mut out, k);
        push_char(&mut out, ' ');
        push_char(&mut out, 'K');
        proof {
            lemma_join_push(parts, counted(k as nat, seq!['K']));
            parts = parts.push(counted(k as nat, seq!['K']));
            assert(out@ =~= join_plus(parts));
        }
        has_parts = true;
    }
    if r3 > 0 {
        push_separator(&mut out, has_parts);
        push_decimal(&mut out, r3);
        proof {
            lemma_join_push(parts, decimal(r3 as nat));
            parts = parts.push(decimal(r3 as nat));
            assert(out@ =~= join_plus(parts));
        }
        has_parts = true;
    }
    proof {
        assert(parts =~= insertion_parts(i as nat));
    }
    if !has_parts {
        push_char(&mut out, '0');
        proof {
            assert(out@ =~= seq!['0']);
        }
    }
    out
}


/// Opcode of an insert record in a query file.
pub const INSERT: u8 = 0;

/// Opcode of an update record in a query file.
pub const UPDATE: u8 = 1;

/// Opcode of a delete record in a query file.
pub const DELETE: u8 = 2;

/// Bytes of one query-file record: the opcode, then the key in little-endian order.
pub const QUERY_RECORD_LEN: usize = 9;

/// The eight bytes of `k`, least significant first.
pub open spec fn spec_le_bytes(k: u64) -> Seq<u8> {
    seq![
        (k & 0xff) as u8,
        ((k >> 8u64) & 0xff) as u8,
        ((k >> 16u64) & 0xff) as u8,
        ((k >> 24u64) & 0xff) as u8,
        ((k >> 32u64) & 0xff) as u8,
        ((k >> 40u64) & 0xff) as u8,
        ((k >> 48u64) & 0xff) as u8,
        ((k >> 56u64) & 0xff) as u8,
    ]
}

/// The key whose little-endian bytes are the first eight of `b`.
pub open spec fn spec_from_le(b: Seq<u8>) -> u64 {
    (b[0] as u64) | ((b[1] as u64) << 8u64) | ((b[2] as u64) << 16u64) | ((b[3] as u64) << 24u64)
        | ((b[4] as u64) << 32u64) | ((b[5] as u64) << 40u64) | ((b[6] as u64) << 48u64) | ((b[7] as u64)
        << 56u64)
}

/// Reading back the bytes of a key gives the key.
pub proof fn lemma_le_roundtrip(k: u64)
    ensures
        spec_from_le(spec_le_bytes(k)) == k,
{
    let b = spec_le_bytes(k);
    assert(((k & 0xff) as u8 as u64) | ((((k >> 8u64) & 0xff) as u8 as u64) << 8u64) | ((((k >> 16u64) & 0xff) as u8
        as u64) << 16u64) | ((((k >> 24u64) & 0xff) as u8 as u64) << 24u64) | ((((k >> 32u64) & 0xff) as u8 as u64)
        << 32u64) | ((((k >> 40u64) & 0xff) as u8 as u64) << 40u64) | ((((k >> 48u64) & 0xff) as u8 as u64) << 48u64)
        | ((((k >> 56u64) & 0xff) as u8 as u64) << 56u64) == k) by (bit_vector);
}

/// The opcode and key a request is written with: inserts, updates and
/// deletes only.
pub open spec fn spec_opcode(op: CRUDOperation<Payload>) -> Option<(u8, u64)> {
    match op {
        CRUDOperation::Insert(k, _) => Some((INSERT, k)),
        CRUDOperation::Update(k, _) => Some((UPDATE, k)),
        CRUDOperation::Delete(k) => Some((DELETE, k)),
        _ => None,
    }
}

/// The record of opcode `code` and key `k`.
pub open spec fn spec_query_record(code: u8, k: u64) -> Seq<u8> {
    seq![code] + spec_le_bytes(k)
}

/// The request a nine-byte record stands for; a written record carries no
/// payload, so inserts and updates come back with the default payload.
pub open spec fn spec_decode_query(rec: Seq<u8>) -> Option<CRUDOperation<Payload>> {
    let k = spec_from_le(rec.subrange(1, 9));
    if rec[0] == INSERT {
        Some(CRUDOperation::Insert(k, 0))
    } else if rec[0] == UPDATE {
        Some(CRUDOperation::Update(k, 0))
    } else if rec[0] == DELETE {
        Some(CRUDOperation::Delete(k))
    } else {
        None
    }
}

/// Record `i` of the query file `bytes`.
pub open spec fn query_record(bytes: Seq<u8>, i: int) -> Seq<u8> {
    bytes.subrange(9 * i, 9 * i + 9)
}

/// `op` with the default payload.
pub open spec fn with_default_payload(op: CRUDOperation<Payload>) -> CRUDOperation<Payload> {
    match op {
        CRUDOperation::Insert(k, _) => CRUDOperation::Insert(k, 0),
        CRUDOperation::Update(k, _) => CRUDOperation::Update(k, 0),
        _ => op,
    }
}

/// A written insert, update or delete reads back as the same request, with
/// the default payload.
pub proof fn law_query_record_roundtrip(op: CRUDOperation<Payload>)
    requires
        spec_opcode(op) is Some,
    ensures
        ({
            let (c, k) = spec_opcode(op)->0;
            spec_decode_query(spec_query_record(c, k)) == Some(with_default_payload(op))
        }),
{
    let (c, k) = spec_opcode(op)->0;
    let rec = spec_query_record(c, k);
    assert(rec.subrange(1, 9) =~= spec_le_bytes(k));
    lemma_le_roundtrip(k);
}

pub(crate) fn push_le_bytes(out: &mut Vec<u8>, k: u64)
    ensures
        final(out)@ == old(out)@ + spec_le_bytes(k),
{
    out.push((k & 0xff) as u8);
    out.push(((k >> 8) & 0xff) as u8);
    out.push(((k >> 16) & 0xff) as u8);
    out.push(((k >> 24) & 0xff) as u8);
    out.push(((k >> 32) & 0xff) as u8);
    out.push(((k >> 40) & 0xff) as u8);
    out.push(((k >> 48) & 0xff) as u8);
    out.push(((k >> 56) & 0xff) as u8);
    proof {
        assert(out@ =~= old(out)@ + spec_le_bytes(k));
    }
}

/// Appends the record of `op` to `out` when it is an insert, update or
/// delete; any other request is not written and `out` stays as it was.
pub fn encode_query(op: &CRUDOperation<Payload>, out: &mut Vec<u8>) -> (r: bool)
    ensures
        match spec_opcode(*op) {
            Some((c, k)) => r && final(out)@ == old(out)@ + spec_query_record(c, k),
            None => !r && final(out)@ == old(out)@,
        },
{
    let (code, k) = match op {
        CRUDOperation::Insert(k, _) => (INSERT, *k),
        CRUDOperation::Update(k, _) => (UPDATE, *k),
        CRUDOperation::Delete(k) => (DELETE, *k),
        _ => {
            return false;
        },
    };
    let ghost before = out@;
    out.push(code);
    push_le_bytes(out, k);
    proof {
        assert(out@ =~= before + spec_query_record(code, k));
    }
    true
}

fn read_le(bytes: &Vec<u8>, at: usize) -> (r: u64)
    requires
        at + 8 <= bytes.len(),
    ensures
        r == spec_from_le(bytes@.subrange(at as int, at + 8)),
{
    let ghost b = bytes@.subrange(at as int, at + 8);
    assert(b[0] == bytes@[at as int] && b[7] == bytes@[at + 7]);
    (bytes[at] as u64) | ((bytes[at + 1] as u64) << 8) | ((bytes[at + 2] as u64) << 16) | ((bytes[at + 3] as u64) << 24)
        | ((bytes[at + 4] as u64) << 32) | ((bytes[at + 5] as u64) << 40) | ((bytes[at + 6] as u64) << 48) | ((
    bytes[at + 7] as u64) << 56)
}

/// The request of the record starting at `at`.
pub fn decode_query(bytes: &Vec<u8>, at: usize) -> (r: Option<CRUDOperation<Payload>>)
    requires
        at + 9 <= bytes.len(),
    ensures
        r == spec_decode_query(bytes@.subrange(at as int, at + 9)),
{
    let ghost rec = bytes@.subrange(at as int, at + 9);
    let k = read_le(bytes, at + 1);
    proof {
        assert(rec.subrange(1, 9) =~= bytes@.subrange(at + 1, at + 9));
        assert(rec[0] == bytes@[at as int]);
    }
    let code = bytes[at];
    if code == INSERT {
        Some(CRUDOperation::Insert(k, 0))
    } else if code == UPDATE {
        Some(CRUDOperation::Update(k, 0))
    } else if code == DELETE {
        Some(CRUDOperation::Delete(k))
    } else {
        None
    }
}

/// The requests of every whole record of the query file `bytes`, in order
/// (trailing bytes that do not fill a record are ignored); `Err(i)` for the
/// first record `i` whose opcode is unknown.
pub fn load_query_into_memory(bytes: &Vec<u8>) -> (r: Result<Vec<CRUDOperation<Payload>>, usize>)
    ensures
        match r {
            Ok(ops) => {
                &&& ops@.len() == bytes@.len() / 9
                &&& forall|i: int| 0 <= i < ops@.len() ==> spec_decode_query(#[trigger] query_record(bytes@, i)) == Some(ops@[i])
            },
            Err(i) => {
                &&& i < bytes@.len() / 9
                &&& spec_decode_query(query_record(bytes@, i as int)) is None
                &&& forall|j: int| 0 <= j < i ==> spec_decode_query(#[trigger] query_record(bytes@, j)) is Some
            },
        },
{
    let mut ops: Vec<CRUDOperation<Payload>> = Vec::new();
    let mut pos: usize = 0;
    while pos <= bytes.len() && bytes.len() - pos >= 9
        invariant
            pos == 9 * ops@.len(),
            pos <= bytes@.len(),
            forall|i: int| 0 <= i < ops@.len() ==> spec_decode_query(#[trigger] query_record(bytes@, i)) == Some(ops@[i]),
        decreases bytes@.len() - pos,
    {
        let n = ops.len();
        let op = decode_query(bytes, pos);
        proof {
            assert(query_record(bytes@, n as int) == bytes@.subrange(pos as int, pos + 9));
        }
        match op {
            Some(o) => {
                ops.push(o);
            },
            None => {
                proof {
                    assert(n < bytes@.len() / 9) by (nonlinear_arith)
                        requires
                            9 * n + 9 <= bytes@.len(),
                    ;
                }
                return Err(n);
            },
        }
        pos = pos + 9;
    }
    proof {
        let n = ops@.len();
        let len = bytes@.len();
        assert(n == len / 9) by (nonlinear_arith)
            requires
                9 * n <= len,
                len < 9 * n + 9,
        ;
    }
    Ok(ops)
}

/// A replayed request took effect: an insert was inserted, an update
/// updated, a delete deleted.
pub open spec fn replay_ok(op: CRUDOperation<Payload>, r: CRUDOperationResult<Payload>) -> bool {
    match op {
        CRUDOperation::Insert(..) => r is Inserted,
        CRUDOperation::Update(..) => r is Updated,
        CRUDOperation::Delete(..) => r is Deleted,
        _ => false,
    }
}

/// Why replaying `op` did not take effect, `t` being the tree it left and
/// `res` its answer: a write the tree refused (`write_refused`), or an update
/// or delete of a key whose newest record is not live; a request that is no
/// write is not replayed at all.
pub open spec fn replay_refused<const FAN: usize, const RECS: usize>(
    t: MVTreeSt<FAN, RECS, Payload>,
    op: CRUDOperation<Payload>,
    res: CRUDOperationResult<Payload>,
) -> bool {
    match op {
        CRUDOperation::Insert(k, p) => res is Error && write_refused(t, LeafWrite::Insert(k, p)),
        CRUDOperation::Update(k, p) => res is Error && write_refused(t, LeafWrite::Update(k, p))
            || res is ZeroAffected && !newest_live(t.write_leaf_records(k), k),
        CRUDOperation::Delete(k) => res is Error && write_refused(t, LeafWrite::Delete(k))
            || res is ZeroAffected && !newest_live(t.write_leaf_records(k), k),
        _ => true,
    }
}

/// Replays `ops` on `index`, in order, and counts them; `Err((i, res))` for
/// the first request `i` that did not take effect, with the answer `res` it
/// got (the requests before it, and it, were applied). No read of a snapshot
/// older than the clock at the start changes.
pub fn load_query<const FAN: usize, const RECS: usize>(
    index: &mut MVTreeSt<FAN, RECS, Payload>,
    ops: &Vec<CRUDOperation<Payload>>,
) -> (r: Result<usize, (usize, CRUDOperationResult<Payload>)>)
    requires
        old(index).wf(),
        old(index).version_inv(),
    ensures
        final(index).wf(),
        final(index).version_inv(),
        final(index).global_clock.0 >= old(index).global_clock.0,
        !old(index).in_place_on() ==> old(index).reads_agree_below(*final(index), old(index).global_clock.0),
        match r {
            Ok(n) => n == ops@.len(),
            Err((i, res)) => i < ops@.len() && !replay_ok(ops@[i as int], res) && replay_refused(
                *final(index),
                ops@[i as int],
                res,
            ),
        },
        r matches Err((i, _)) ==> forall|j: int| 0 <= j < i ==> (#[trigger] ops@[j] is Insert || ops@[j] is Update
            || ops@[j] is Delete),
        r is Ok ==> forall|j: int| 0 <= j < ops@.len() ==> (#[trigger] ops@[j] is Insert || ops@[j] is Update
            || ops@[j] is Delete),
{
    let ghost start = *index;
    let ghost w0 = index.global_clock.0;
    proof {
        start.lemma_reads_agree_refl(w0);
    }
    let mut i: usize = 0;
    while i < ops.len()
        invariant
            index.wf(),
            index.version_inv(),
            index.global_clock.0 >= w0,
            w0 == start.global_clock.0,
            start == *old(index),
            !start.in_place_on() ==> start.reads_agree_below(*index, w0),
            index.gc_mode() == start.gc_mode(),
            i <= ops@.len(),
            forall|j: int| 0 <= j < i ==> (#[trigger] ops@[j] is Insert || ops@[j] is Update || ops@[j] is Delete),
        decreases ops@.len() - i,
    {
        let op = ops[i];
        let ghost before = *index;
        let res = index.dispatch_crud(op);
        proof {
            if !start.in_place_on() {
                start.lemma_reads_agree_trans(before, *index, w0, before.global_clock.0, w0);
            }
        }
        let ok = match op {
            CRUDOperation::Insert(..) => matches!(res, CRUDOperationResult::Inserted(_)),
            CRUDOperation::Update(..) => matches!(res, CRUDOperationResult::Updated(_)),
            CRUDOperation::Delete(..) => matches!(res, CRUDOperationResult::Deleted(_)),
            _ => false,
        };
        if !ok {
            return Err((i, res));
        }
        i = i + 1;
    }
    Ok(i)
}

/// `rand::seq::SliceRandom::shuffle` with the thread generator: the crate
/// documents a permutation of the items, picked uniformly; which one is
/// left to chance.
#[verifier::external_body]
fn shuffle_in_place<T>(items: &mut Vec<T>)
    ensures
        final(items)@.to_multiset() == old(items)@.to_multiset(),
{
    items.shuffle(&mut rand::rng());
}

/// One block of generated work: `inserts` random inserts, then `updates`
/// random updates, then `deletes` random deletes.
pub open spec fn spec_block(inserts: nat, updates: nat, deletes: nat) -> Seq<CRUDOperation<Payload>> {
    Seq::new(
        inserts + updates + deletes,
        |j: int|
            if j < inserts {
                CRUDOperation::InsertRand
            } else if j < inserts + updates {
                CRUDOperation::UpdateRand
            } else {
                CRUDOperation::DeleteRand
            },
    )
}

/// The requests of one block of generated work, in a random order.
pub fn gen_block(inserts: usize, updates: usize, deletes: usize) -> (r: Vec<CRUDOperation<Payload>>)
    requires
        inserts + updates + deletes <= usize::MAX,
    ensures
        r@.to_multiset() == spec_block(inserts as nat, updates as nat, deletes as nat).to_multiset(),
        r@.len() == inserts + updates + deletes,
{
    let ghost target = spec_block(inserts as nat, updates as nat, deletes as nat);
    let total = inserts + updates + deletes;
    let mut crud: Vec<CRUDOperation<Payload>> = Vec::new();
    let mut j: usize = 0;
    while j < total
        invariant
            j <= total,
            total == inserts + updates + deletes,
            target == spec_block(inserts as nat, updates as nat, deletes as nat),
            crud@ == target.take(j as int),
        decreases total - j,
    {
        let op = if j < inserts {
            CRUDOperation::InsertRand
        } else if j < inserts + updates {
            CRUDOperation::UpdateRand
        } else {
            CRUDOperation::DeleteRand
        };
        crud.push(op);
        proof {
            assert(crud@ =~= target.take(j + 1));
        }
        j = j + 1;
    }
    proof {
        assert(crud@ =~= target);
    }
    shuffle_in_place(&mut crud);
    proof {
        crud@.to_multiset_ensures();
        target.to_multiset_ensures();
    }
    crud
}

/// What a generated request `op` is written to the query file as, once the
/// tree answered `r`: a random insert, update or delete as a plain one on
/// the key it hit; any other request as itself.
pub open spec fn spec_logged(op: CRUDOperation<Payload>, r: CRUDOperationResult<Payload>) -> CRUDOperation<Payload> {
    match r {
        CRUDOperationResult::InsertedRand(k, _) => CRUDOperation::Insert(k, 0),
        CRUDOperationResult::UpdatedRand(k, _) => CRUDOperation::Update(k, 0),
        CRUDOperationResult::DeletedRand(k, _) => CRUDOperation::Delete(k),
        _ => op,
    }
}

/// `rec` is what a generated request `op` that took effect is logged as: a
/// random write as the plain write of the same kind on the key it hit, a
/// plain write as the same kind of write on the same key; logged records
/// carry the default payload.
pub open spec fn logged_from(op: CRUDOperation<Payload>, rec: CRUDOperation<Payload>) -> bool {
    &&& match op {
        CRUDOperation::InsertRand => rec is Insert,
        CRUDOperation::UpdateRand => rec is Update,
        CRUDOperation::DeleteRand => rec is Delete,
        _ => spec_opcode(op) is Some && spec_opcode(rec) == spec_opcode(op),
    }
    &&& rec == with_default_payload(rec)
}

/// Why running generated request `op` stopped, `t` being the tree it left:
/// a plain write the tree refused (`write_refused`); a random write whose draw
/// came to nothing, or a request that is no write, leaves nothing to log.
pub open spec fn run_stopped<const FAN: usize, const RECS: usize>(
    t: MVTreeSt<FAN, RECS, Payload>,
    op: CRUDOperation<Payload>,
) -> bool {
    match op {
        CRUDOperation::Insert(k, p) => write_refused(t, LeafWrite::Insert(k, p)),
        CRUDOperation::Update(k, p) => write_refused(t, LeafWrite::Update(k, p)),
        CRUDOperation::Delete(k) => write_refused(t, LeafWrite::Delete(k)),
        _ => true,
    }
}

/// The logged form of `op` answered by `r` (see `spec_logged`).
pub fn logged(op: CRUDOperation<Payload>, r: &CRUDOperationResult<Payload>) -> (l: CRUDOperation<Payload>)
    ensures
        l == spec_logged(op, *r),
{
    match r {
        CRUDOperationResult::InsertedRand(k, _) => CRUDOperation::Insert(*k, 0),
        CRUDOperationResult::UpdatedRand(k, _) => CRUDOperation::Update(*k, 0),
        CRUDOperationResult::DeletedRand(k, _) => CRUDOperation::Delete(*k),
        _ => op,
    }
}

/// Runs the generated requests `block` on `index`, in order, and appends the
/// record of each to `log`, as the tree answered it (see `spec_logged`).
/// `Err(i)` for the first request `i` the tree answered with an error or
/// whose logged form is no insert, update or delete (nothing is logged for it).
pub fn run_block<const FAN: usize, const RECS: usize>(
    index: &mut MVTreeSt<FAN, RECS, Payload>,
    block: &Vec<CRUDOperation<Payload>>,
    log: &mut Vec<u8>,
) -> (r: Result<usize, usize>)
    requires
        old(index).wf(),
        old(index).version_inv(),
    ensures
        final(index).wf(),
        final(index).version_inv(),
        final(index).global_clock.0 >= old(index).global_clock.0,
        !old(index).in_place_on() ==> old(index).reads_agree_below(*final(index), old(index).global_clock.0),
        match r {
            Ok(n) => n == block@.len() && final(log)@.len() == old(log)@.len() + 9 * n,
            Err(i) => i < block@.len() && final(log)@.len() == old(log)@.len() + 9 * i,
        },
        forall|j: int|
            0 <= j < (final(log)@.len() - old(log)@.len()) / 9 ==> (spec_decode_query(
                #[trigger] query_record(final(log)@.subrange(old(log)@.len() as int, final(log)@.len() as int), j),
            ) matches Some(rec) && logged_from(block@[j], rec)),
        r matches Err(i) ==> run_stopped(*final(index), block@[i as int]),
{
    let ghost start = *index;
    let ghost w0 = index.global_clock.0;
    let ghost log0 = log@;
    proof {
        start.lemma_reads_agree_refl(w0);
    }
    let mut i: usize = 0;
    while i < block.len()
        invariant
            index.wf(),
            index.version_inv(),
            index.global_clock.0 >= w0,
            w0 == start.global_clock.0,
            start == *old(index),
            !start.in_place_on() ==> start.reads_agree_below(*index, w0),
            index.gc_mode() == start.gc_mode(),
            i <= block@.len(),
            log0 == old(log)@,
            log@.len() == log0.len() + 9 * i,
            log@.subrange(0, log0.len() as int) == log0,
            forall|j: int|
                0 <= j < i ==> (spec_decode_query(#[trigger] query_record(log@.subrange(log0.len() as int, log@.len() as int), j))
                    matches Some(rec) && logged_from(block@[j], rec)),
        decreases block@.len() - i,
    {
        let op = block[i];
        let ghost before = *index;
        let res = index.dispatch_crud(op);
        proof {
            if !start.in_place_on() {
                start.lemma_reads_agree_trans(before, *index, w0, before.global_clock.0, w0);
            }
        }
        if res.is_err() {
            proof {
                lemma_div_nine(log@.len() - log0.len(), i as int);
            }
            return Err(i);
        }
        let entry = logged(op, &res);
        let ghost log_before = log@;
        if !encode_query(&entry, log) {
            proof {
                lemma_div_nine(log@.len() - log0.len(), i as int);
            }
            return Err(i);
        }
        proof {
            let (c, k) = spec_opcode(entry)->0;
            law_query_record_roundtrip(entry);
            let tail = log@.subrange(log0.len() as int, log@.len() as int);
            let tail_before = log_before.subrange(log0.len() as int, log_before.len() as int);
            assert(logged_from(op, with_default_payload(entry)));
            assert forall|j: int| 0 <= j < i + 1 implies (spec_decode_query(#[trigger] query_record(tail, j))
                matches Some(rec) && logged_from(block@[j], rec)) by {
                if j < i {
                    assert(query_record(tail, j) =~= query_record(tail_before, j));
                } else {
                    assert(query_record(tail, j) =~= spec_query_record(c, k));
                }
            }
            assert(log@.subrange(0, log0.len() as int) =~= log0);
        }
        i = i + 1;
    }
    proof {
        lemma_div_nine(log@.len() - log0.len(), i as int);
    }
    Ok(i)
}

proof fn lemma_div_nine(d: int, i: int)
    requires
        d == 9 * i,
        i >= 0,
    ensures
        d / 9 == i,
{
    assert(d / 9 == i) by (nonlinear_arith)
        requires
            d == 9 * i,
    ;
}

/// A log of insert records of pairwise distinct keys decodes to inserts of
/// pairwise distinct keys, with the default payload.
proof fn lemma_insert_log(tail: Seq<u8>, keys: Seq<u64>)
    requires
        tail.len() == 9 * keys.len(),
        forall|j1: int, j2: int| 0 <= j1 < j2 < keys.len() ==> keys[j1] != keys[j2],
        forall|j: int| 0 <= j < keys.len() ==> #[trigger] query_record(tail, j) == spec_query_record(INSERT, keys[j]),
    ensures
        tail.len() / 9 == keys.len(),
        forall|j: int|
            0 <= j < tail.len() / 9 ==> #[trigger] spec_decode_query(query_record(tail, j)) == Some(
                CRUDOperation::Insert(spec_from_le(query_record(tail, j).subrange(1, 9)), 0u64),
            ),
        forall|j1: int, j2: int|
            0 <= j1 < j2 < tail.len() / 9 ==> spec_from_le(#[trigger] query_record(tail, j1).subrange(1, 9))
                != spec_from_le(#[trigger] query_record(tail, j2).subrange(1, 9)),
{
    lemma_div_nine(tail.len() as int, keys.len() as int);
    assert forall|j: int| 0 <= j < tail.len() / 9 implies #[trigger] spec_decode_query(query_record(tail, j)) == Some(
        CRUDOperation::Insert(spec_from_le(query_record(tail, j).subrange(1, 9)), 0u64),
    ) by {
        law_query_record_roundtrip(CRUDOperation::Insert(keys[j], 0));
        assert(query_record(tail, j).subrange(1, 9) =~= spec_le_bytes(keys[j]));
        lemma_le_roundtrip(keys[j]);
    }
    assert forall|j1: int, j2: int| 0 <= j1 < j2 < tail.len() / 9 implies spec_from_le(
        #[trigger] query_record(tail, j1).subrange(1, 9),
    ) != spec_from_le(#[trigger] query_record(tail, j2).subrange(1, 9)) by {
        assert(query_record(tail, j1).subrange(1, 9) =~= spec_le_bytes(keys[j1]));
        assert(query_record(tail, j2).subrange(1, 9) =~= spec_le_bytes(keys[j2]));
        lemma_le_roundtrip(keys[j1]);
        lemma_le_roundtrip(keys[j2]);
    }
}

/// Some snapshot not older than `w0` reads payload 0 for `k` in `t`.
pub open spec fn reads_zero_from<const FAN: usize, const RECS: usize>(t: MVTreeSt<FAN, RECS, Payload>, k: u64, w0: u64) -> bool {
    exists|w: u64| w >= w0 && #[trigger] t.spec_point_read(k, w) == Some(0u64)
}

/// Keys logged as insert records in `tail`, in order, are `keys`; each
/// reads payload 0 at its version in `vers`, which is not older than `w0`.
proof fn lemma_population_reads<const FAN: usize, const RECS: usize>(
    t: MVTreeSt<FAN, RECS, Payload>,
    tail: Seq<u8>,
    keys: Seq<u64>,
    vers: Seq<u64>,
    w0: u64,
)
    requires
        tail.len() == 9 * keys.len(),
        vers.len() == keys.len(),
        forall|j: int| 0 <= j < keys.len() ==> #[trigger] query_record(tail, j) == spec_query_record(INSERT, keys[j]),
        forall|j: int| 0 <= j < keys.len() ==> w0 <= #[trigger] vers[j] && t.spec_point_read(keys[j], vers[j]) == Some(0u64),
    ensures
        forall|j: int|
            0 <= j < tail.len() / 9 ==> reads_zero_from(t, spec_from_le(#[trigger] query_record(tail, j).subrange(1, 9)), w0),
{
    lemma_div_nine(tail.len() as int, keys.len() as int);
    assert forall|j: int| 0 <= j < tail.len() / 9 implies reads_zero_from(
        t,
        spec_from_le(#[trigger] query_record(tail, j).subrange(1, 9)),
        w0,
    ) by {
        assert(query_record(tail, j).subrange(1, 9) =~= spec_le_bytes(keys[j]));
        lemma_le_roundtrip(keys[j]);
        assert(w0 <= vers[j]);
        assert(spec_from_le(query_record(tail, j).subrange(1, 9)) == keys[j]);
        assert(t.spec_point_read(spec_from_le(query_record(tail, j).subrange(1, 9)), vers[j]) == Some(0u64));
    }
}

/// Fills `index` with `count` random keys, each fresh (drawn again, up to
/// `RAND_ATTEMPTS_MAX` + 1 draws, while it was drawn before), inserted with
/// the default payload and logged to `log` as an insert record, in order.
/// `Err(i)` when no fresh key was drawn for the `i`-th key or its insert
/// failed (the keys before it are inserted and logged). Each logged key reads
/// payload 0 at the snapshot of its insert.
pub fn generate_init_population<const FAN: usize, const RECS: usize>(
    index: &mut MVTreeSt<FAN, RECS, Payload>,
    count: usize,
    log: &mut Vec<u8>,
) -> (r: Result<(), usize>)
    requires
        old(index).wf(),
        old(index).version_inv(),
    ensures
        final(index).wf(),
        final(index).version_inv(),
        final(index).global_clock.0 >= old(index).global_clock.0,
        !old(index).in_place_on() ==> old(index).reads_agree_below(*final(index), old(index).global_clock.0),
        match r {
            Ok(()) => final(log)@.len() == old(log)@.len() + 9 * count,
            Err(i) => i < count && final(log)@.len() == old(log)@.len() + 9 * i,
        },
        ({
            let tail = final(log)@.subrange(old(log)@.len() as int, final(log)@.len() as int);
            &&& forall|j: int|
                0 <= j < tail.len() / 9 ==> #[trigger] spec_decode_query(query_record(tail, j)) == Some(
                    CRUDOperation::Insert(spec_from_le(query_record(tail, j).subrange(1, 9)), 0u64),
                )
            &&& forall|j1: int, j2: int|
                0 <= j1 < j2 < tail.len() / 9 ==> spec_from_le(#[trigger] query_record(tail, j1).subrange(1, 9))
                    != spec_from_le(#[trigger] query_record(tail, j2).subrange(1, 9))
            &&& forall|j: int|
                0 <= j < tail.len() / 9 ==> reads_zero_from(
                    *final(index),
                    spec_from_le(#[trigger] query_record(tail, j).subrange(1, 9)),
                    old(index).global_clock.0,
                )
        }),
{
    broadcast use vstd::std_specs::hash::group_hash_axioms;
    let ghost start = *index;
    let ghost w0 = index.global_clock.0;
    let ghost log0 = log@;
    proof {
        start.lemma_reads_agree_refl(w0);
    }
    let mut seen: HashSet<u64> = HashSet::new();
    let ghost mut keys: Seq<u64> = Seq::empty();
    let ghost mut vers: Seq<u64> = Seq::empty();
    let mut i: usize = 0;
    while i < count
        invariant
            index.wf(),
            index.version_inv(),
            index.global_clock.0 >= w0,
            w0 == start.global_clock.0,
            start == *old(index),
            !start.in_place_on() ==> start.reads_agree_below(*index, w0),
            index.gc_mode() == start.gc_mode(),
            i <= count,
            keys.len() == i,
            vers.len() == i,
            forall|j: int| 0 <= j < i ==> w0 <= #[trigger] vers[j] && vers[j] < index.global_clock.0
                && index.spec_point_read(keys[j], vers[j]) == Some(0u64),
            log0 == old(log)@,
            log@.len() == log0.len() + 9 * i,
            log@.subrange(0, log0.len() as int) == log0,
            forall|j: int| 0 <= j < i ==> #[trigger] seen@.contains(keys[j]),
            forall|j1: int, j2: int| 0 <= j1 < j2 < i ==> keys[j1] != keys[j2],
            forall|j: int|
                0 <= j < i ==> #[trigger] query_record(log@.subrange(log0.len() as int, log@.len() as int), j)
                    == spec_query_record(INSERT, keys[j]),
        decreases count - i,
    {
        let mut attempts: Attempts = 0;
        let mut fresh: Option<u64> = None;
        while fresh.is_none() && attempts <= RAND_ATTEMPTS_MAX
            invariant
                attempts <= RAND_ATTEMPTS_MAX + 1,
                fresh matches Some(k) ==> !seen@.contains(k),
            decreases RAND_ATTEMPTS_MAX + 1 - attempts + if fresh is None { 1int } else { 0int },
        {
            let key = random_in(0, u64::MAX - 1);
            if !seen.contains(&key) {
                fresh = Some(key);
            } else {
                attempts = attempts + 1;
            }
        }
        let key = match fresh {
            Some(k) => k,
            None => {
                proof {
                    lemma_insert_log(log@.subrange(log0.len() as int, log@.len() as int), keys);
                    lemma_population_reads(*index, log@.subrange(log0.len() as int, log@.len() as int), keys, vers, w0);
                }
                return Err(i);
            },
        };
        let ghost before = *index;
        let res = index.dispatch_crud(CRUDOperation::Insert(key, 0));
        proof {
            if !start.in_place_on() {
                start.lemma_reads_agree_trans(before, *index, w0, before.global_clock.0, w0);
            }
        }
        if !matches!(res, CRUDOperationResult::Inserted(_)) {
            proof {
                lemma_insert_log(log@.subrange(log0.len() as int, log@.len() as int), keys);
                lemma_population_reads(*index, log@.subrange(log0.len() as int, log@.len() as int), keys, vers, w0);
            }
            return Err(i);
        }
        let ghost old_seen = seen@;
        seen.insert(key);
        let ghost log_before = log@;
        let _ = encode_query(&CRUDOperation::Insert(key, 0), log);
        proof {
            let tail = log@.subrange(log0.len() as int, log@.len() as int);
            let tail_before = log_before.subrange(log0.len() as int, log_before.len() as int);
            assert forall|j: int| 0 <= j < i implies #[trigger] query_record(tail, j) == spec_query_record(INSERT, keys[j]) by {
                assert(query_record(tail, j) =~= query_record(tail_before, j));
            }
            assert(query_record(tail, i as int) =~= spec_query_record(INSERT, key));
            keys = keys.push(key);
            let w = res->Inserted_0;
            vers = vers.push(w);
            assert forall|j: int| 0 <= j < i + 1 implies w0 <= #[trigger] vers[j] && vers[j] < index.global_clock.0
                && index.spec_point_read(keys[j], vers[j]) == Some(0u64) by {
                if j < i {
                    assert(before.spec_point_read(keys[j], vers[j]) == Some(0u64));
                    assert(index.spec_point_read(keys[j], vers[j]) == before.spec_point_read(keys[j], vers[j]));
                }
            }
            assert forall|j: int| 0 <= j < i + 1 implies #[trigger] query_record(tail, j) == spec_query_record(INSERT, keys[j]) by {
            }
            assert(log@.subrange(0, log0.len() as int) =~= log0);
            assert forall|j1: int, j2: int| 0 <= j1 < j2 < i + 1 implies keys[j1] != keys[j2] by {
                if j2 == i {
                    assert(old_seen.contains(keys[j1]));
                }
            }
        }
        i = i + 1;
    }
    proof {
        lemma_insert_log(log@.subrange(log0.len() as int, log@.len() as int), keys);
        lemma_population_reads(*index, log@.subrange(log0.len() as int, log@.len() as int), keys, vers, w0);
    }
    Ok(())
}

} // verus!
