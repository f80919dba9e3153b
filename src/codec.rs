//! Fixed-size binary encoding of points, values and rows.
use vstd::prelude::*;
use crate::{Point, Row, Value};

verus! {

#[verifier::external_type_specification]
#[verifier::external_body]
pub struct ExBincodeErrorKind(bincode::ErrorKind);

/// The four little-endian bytes of `x`.
pub open spec fn le_bytes(x: u32) -> Seq<u8> {
    seq![
        (x & 0xff) as u8,
        ((x >> 8u32) & 0xff) as u8,
        ((x >> 16u32) & 0xff) as u8,
        ((x >> 24u32) & 0xff) as u8,
    ]
}

/// The `u32` whose little-endian bytes are the first four of `b`.
pub open spec fn le_value(b: Seq<u8>) -> u32
    recommends
        b.len() >= 4,
{
    (b[0] as u32) | ((b[1] as u32) << 8u32) | ((b[2] as u32) << 16u32) | ((b[3] as u32) << 24u32)
}

/// Reading back the little-endian bytes of `x` gives `x`.
pub proof fn lemma_le_round_trip(x: u32)
    ensures
        le_value(le_bytes(x)) == x,
{
    let b = le_bytes(x);
    assert((((x & 0xff) as u8) as u32) | (((((x >> 8u32) & 0xff) as u8) as u32) << 8u32)
        | (((((x >> 16u32) & 0xff) as u8) as u32) << 16u32)
        | (((((x >> 24u32) & 0xff) as u8) as u32) << 24u32) == x) by (bit_vector);
}

/// The four big-endian bytes of `x`.
pub open spec fn be_bytes(x: u32) -> Seq<u8> {
    seq![
        ((x >> 24u32) & 0xff) as u8,
        ((x >> 16u32) & 0xff) as u8,
        ((x >> 8u32) & 0xff) as u8,
        (x & 0xff) as u8,
    ]
}

/// The `u32` whose big-endian bytes are the first four of `b`.
pub open spec fn be_value(b: Seq<u8>) -> u32
    recommends
        b.len() >= 4,
{
    ((b[0] as u32) << 24u32) | ((b[1] as u32) << 16u32) | ((b[2] as u32) << 8u32) | (b[3] as u32)
}

/// Reading back the big-endian bytes of `x` gives `x`.
pub proof fn lemma_be_round_trip(x: u32)
    ensures
        be_value(be_bytes(x)) == x,
{
    assert((((((x >> 24u32) & 0xff) as u8) as u32) << 24u32) | (((((x >> 16u32) & 0xff) as u8) as u32) << 16u32)
        | (((((x >> 8u32) & 0xff) as u8) as u32) << 8u32) | (((x & 0xff) as u8) as u32) == x) by (bit_vector);
}

/// The big-endian bytes of `x`.
pub fn be_encode(x: u32) -> (r: [u8; 4])
    ensures
        r@ == be_bytes(x),
{
    let r = [((x >> 24u32) & 0xff) as u8, ((x >> 16u32) & 0xff) as u8, ((x >> 8u32) & 0xff) as u8, (x & 0xff) as u8];
    assert(r@ =~= be_bytes(x));
    r
}

/// The `u32` whose big-endian bytes stand at `at` in `buf`.
pub fn be_decode(buf: &Vec<u8>, at: usize) -> (r: u32)
    requires
        at + 4 <= buf@.len(),
    ensures
        r == be_value(buf@.subrange(at as int, at + 4)),
{
    let _n = buf.len();
    ((buf[at] as u32) << 24u32) | ((buf[at + 1] as u32) << 16u32) | ((buf[at + 2] as u32) << 8u32) | (buf[at + 3] as u32)
}

/// Relies on bincode::serialize: with its default options (fixed-width integers,
/// little-endian) a `u32` becomes its four little-endian bytes, and serializing
/// into a `Vec` cannot fail.
#[verifier::external_body]
fn serialize_u32(x: u32) -> (r: Result<Vec<u8>, Box<bincode::ErrorKind>>)
    ensures
        r is Ok,
        r->Ok_0@ == le_bytes(x),
{
    bincode::serialize(&x)
}

/// Relies on bincode::deserialize: with its default options four bytes are read
/// as a little-endian `u32`, which always succeeds.
#[verifier::external_body]
fn deserialize_u32(buf: &Vec<u8>, at: usize) -> (r: Result<u32, Box<bincode::ErrorKind>>)
    requires
        at + 4 <= buf@.len(),
    ensures
        r is Ok,
        r->Ok_0 == le_value(buf@.subrange(at as int, at + 4)),
{
    bincode::deserialize(&buf[at..at + 4])
}

/// Appends the encoding of `x` to `out`.
pub fn push_u32(out: &mut Vec<u8>, x: u32)
    ensures
        final(out)@ == old(out)@ + le_bytes(x),
{
    match serialize_u32(x) {
        Ok(b) => {
            let mut b = b;
            out.append(&mut b);
        },
        Err(_) => {},
    }
}

/// Reads the `u32` encoded at `at` in `buf`.
pub fn read_u32(buf: &Vec<u8>, at: usize) -> (r: u32)
    requires
        at + 4 <= buf@.len(),
    ensures
        r == le_value(buf@.subrange(at as int, at + 4)),
{
    match deserialize_u32(buf, at) {
        Ok(v) => v,
        Err(_) => 0,
    }
}

/// Bytes of an encoded point and value.
pub const PAIR_SIZE: usize = 12;

/// Bytes of an encoded row: a tag, then a point and value.
pub const ROW_SIZE: usize = 13;

/// Tag byte of an insert.
pub const INSERT: u8 = 0;

/// Tag byte of a delete.
pub const DELETE: u8 = 1;

/// A point and value: the point's two coordinates, then the value, each as four
/// little-endian bytes.
pub open spec fn pair_bytes(p: Point, v: Value) -> Seq<u8> {
    le_bytes(p.x) + le_bytes(p.y) + le_bytes(v)
}

/// A row: its tag byte, then its point and value.
pub open spec fn row_bytes(r: Row) -> Seq<u8> {
    match r {
        Row::Insert(p, v) => seq![INSERT] + pair_bytes(p, v),
        Row::Delete(p, v) => seq![DELETE] + pair_bytes(p, v),
    }
}

/// Pairs packed back to back.
pub open spec fn pairs_bytes(ps: Seq<(Point, Value)>) -> Seq<u8> {
    Seq::new(
        (ps.len() * 12) as nat,
        |i: int| pair_bytes(ps[i / 12].0, ps[i / 12].1)[i % 12],
    )
}

/// Rows packed back to back.
pub open spec fn rows_bytes(rows: Seq<Row>) -> Seq<u8> {
    Seq::new((rows.len() * 13) as nat, |i: int| row_bytes(rows[i / 13])[i % 13])
}

/// The point and value encoded in the first twelve bytes of `b`.
pub open spec fn pair_of(b: Seq<u8>) -> (Point, Value) {
    (
        Point { x: le_value(b), y: le_value(b.subrange(4, 8)) },
        le_value(b.subrange(8, 12)),
    )
}

/// The pairs packed in `b`, one per whole twelve bytes.
pub open spec fn pairs_of(b: Seq<u8>) -> Seq<(Point, Value)> {
    Seq::new(b.len() / 12, |k: int| pair_of(b.subrange(k * 12, k * 12 + 12)))
}

/// The row encoded in the thirteen bytes of `b` from `at`; a tag other than the
/// insert tag reads as a delete.
pub open spec fn row_at(b: Seq<u8>, at: int) -> Row {
    let (p, v) = pair_of(b.subrange(at + 1, at + 13));
    if b[at] == INSERT {
        Row::Insert(p, v)
    } else {
        Row::Delete(p, v)
    }
}

/// `b` is a whole number of rows, each with a known tag.
pub open spec fn rows_valid(b: Seq<u8>) -> bool {
    &&& b.len() % 13 == 0
    &&& forall|k: int| 0 <= k < b.len() / 13 ==> #[trigger] b[k * 13] == INSERT || b[k * 13] == DELETE
}

/// The rows packed in `b`.
pub open spec fn rows_of(b: Seq<u8>) -> Seq<Row> {
    Seq::new(b.len() / 13, |k: int| row_at(b, k * 13))
}

proof fn lemma_div(i: int, k: int, n: int)
    requires
        0 < n,
        k * n <= i < k * n + n,
    ensures
        i / n == k,
        i % n == i - k * n,
{
    assert(i / n == k && i % n == i - k * n) by (nonlinear_arith)
        requires
            0 < n,
            k * n <= i < k * n + n,
    ;
}

/// Reading back encoded pairs gives the pairs.
pub proof fn lemma_pairs_round_trip(ps: Seq<(Point, Value)>)
    ensures
        pairs_bytes(ps).len() == ps.len() * 12,
        pairs_of(pairs_bytes(ps)) == ps,
{
    let b = pairs_bytes(ps);
    assert(b.len() / 12 == ps.len()) by (nonlinear_arith)
        requires
            b.len() == ps.len() * 12,
    ;
    assert forall|k: int| 0 <= k < ps.len() implies #[trigger] pairs_of(b)[k] == ps[k] by {
        assert(0 <= k * 12 && k * 12 + 12 <= b.len()) by (nonlinear_arith)
            requires
                0 <= k < ps.len(),
                b.len() == ps.len() * 12,
        ;
        let sub = b.subrange(k * 12, k * 12 + 12);
        assert forall|j: int| 0 <= j < 12 implies #[trigger] sub[j] == pair_bytes(ps[k].0, ps[k].1)[j] by {
            lemma_div(k * 12 + j, k, 12);
        }
        assert(sub =~= pair_bytes(ps[k].0, ps[k].1));
        lemma_le_round_trip(ps[k].0.x);
        lemma_le_round_trip(ps[k].0.y);
        lemma_le_round_trip(ps[k].1);
        assert(sub.subrange(4, 8) =~= le_bytes(ps[k].0.y));
        assert(sub.subrange(8, 12) =~= le_bytes(ps[k].1));
    }
    assert(pairs_of(b) =~= ps);
}

#[verifier::rlimit(40)]
proof fn lemma_row_at(rows: Seq<Row>, k: int)
    requires
        0 <= k < rows.len(),
    ensures
        row_at(rows_bytes(rows), k * 13) == rows[k],
        rows_bytes(rows)[k * 13] == INSERT || rows_bytes(rows)[k * 13] == DELETE,
{
    let b = rows_bytes(rows);
    assert(0 <= k * 13 && k * 13 + 13 <= b.len()) by (nonlinear_arith)
        requires
            0 <= k < rows.len(),
            b.len() == rows.len() * 13,
    ;
    let sub = b.subrange(k * 13, k * 13 + 13);
    assert forall|j: int| 0 <= j < 13 implies #[trigger] sub[j] == row_bytes(rows[k])[j] by {
        lemma_div(k * 13 + j, k, 13);
    }
    assert(sub =~= row_bytes(rows[k]));
    let (p, v) = match rows[k] {
        Row::Insert(p, v) => (p, v),
        Row::Delete(p, v) => (p, v),
    };
    assert(sub.subrange(1, 13) =~= pair_bytes(p, v));
    assert(b.subrange(k * 13 + 1, k * 13 + 13) =~= sub.subrange(1, 13));
    lemma_le_round_trip(p.x);
    lemma_le_round_trip(p.y);
    lemma_le_round_trip(v);
    assert(pair_bytes(p, v).subrange(4, 8) =~= le_bytes(p.y));
    assert(pair_bytes(p, v).subrange(8, 12) =~= le_bytes(v));
    assert(b[k * 13] == sub[0]);
}

/// Reading back encoded rows gives the rows, and every tag is known.
pub proof fn lemma_rows_round_trip(rows: Seq<Row>)
    ensures
        rows_bytes(rows).len() == rows.len() * 13,
        rows_valid(rows_bytes(rows)),
        rows_of(rows_bytes(rows)) == rows,
{
    let b = rows_bytes(rows);
    lemma_whole(rows.len() as int, 13);
    assert forall|k: int| 0 <= k < rows.len() implies #[trigger] rows_of(b)[k] == rows[k] by {
        lemma_row_at(rows, k);
    }
    assert(rows_of(b) =~= rows);
    assert forall|k: int| 0 <= k < b.len() / 13 implies #[trigger] b[k * 13] == INSERT || b[k * 13] == DELETE by {
        lemma_row_at(rows, k);
    }
}

proof fn lemma_whole(n: int, m: int)
    requires
        0 <= n,
        0 < m,
    ensures
        (n * m) / m == n,
        (n * m) % m == 0,
{
    assert((n * m) / m == n && (n * m) % m == 0) by (nonlinear_arith)
        requires
            0 <= n,
            0 < m,
    ;
}

/// Encoding rows one after another is encoding them together.
pub proof fn lemma_rows_bytes_append(a: Seq<Row>, b: Seq<Row>)
    ensures
        rows_bytes(a + b) == rows_bytes(a) + rows_bytes(b),
{
    let l = rows_bytes(a + b);
    let r = rows_bytes(a) + rows_bytes(b);
    assert forall|i: int| 0 <= i < l.len() implies #[trigger] l[i] == r[i] by {
        let k = i / 13;
        assert(k * 13 <= i < k * 13 + 13 && i % 13 == i - k * 13) by (nonlinear_arith)
            requires
                0 <= i,
                k == i / 13,
        ;
        if k < a.len() {
            assert(i < a.len() * 13) by (nonlinear_arith)
                requires
                    k < a.len(),
                    k * 13 <= i < k * 13 + 13,
            ;
        } else {
            assert(i >= a.len() * 13) by (nonlinear_arith)
                requires
                    k >= a.len(),
                    k * 13 <= i,
            ;
            lemma_div(i - a.len() * 13, k - a.len(), 13);
        }
    }
    assert(l =~= r);
}

/// Encoding one more pair appends its bytes.
pub proof fn lemma_pairs_bytes_push(ps: Seq<(Point, Value)>, pv: (Point, Value))
    ensures
        pairs_bytes(ps.push(pv)) == pairs_bytes(ps) + pair_bytes(pv.0, pv.1),
{
    let l = pairs_bytes(ps.push(pv));
    let r = pairs_bytes(ps) + pair_bytes(pv.0, pv.1);
    assert forall|i: int| 0 <= i < l.len() implies #[trigger] l[i] == r[i] by {
        let k = i / 12;
        assert(k * 12 <= i < k * 12 + 12 && i % 12 == i - k * 12) by (nonlinear_arith)
            requires
                0 <= i,
                k == i / 12,
        ;
        if k < ps.len() {
            assert(i < ps.len() * 12) by (nonlinear_arith)
                requires
                    k < ps.len(),
                    k * 12 <= i < k * 12 + 12,
            ;
        } else {
            assert(k == ps.len()) by (nonlinear_arith)
                requires
                    k >= ps.len(),
                    k * 12 <= i,
                    i < ps.len() * 12 + 12,
            ;
        }
    }
    assert(l =~= r);
}

/// One row encoded alone.
pub proof fn lemma_rows_bytes_one(r: Row)
    ensures
        rows_bytes(seq![r]) == row_bytes(r),
{
    assert(rows_bytes(seq![r]) =~= row_bytes(r));
}

/// Four bytes read as a `u32` and written back are the same bytes.
pub proof fn lemma_le_bytes_value(s: Seq<u8>)
    requires
        s.len() == 4,
    ensures
        le_bytes(le_value(s)) == s,
{
    let (b0, b1, b2, b3) = (s[0], s[1], s[2], s[3]);
    let x = le_value(s);
    assert(x == (b0 as u32) | ((b1 as u32) << 8u32) | ((b2 as u32) << 16u32) | ((b3 as u32) << 24u32));
    assert((x & 0xff) as u8 == b0 && ((x >> 8u32) & 0xff) as u8 == b1 && ((x >> 16u32) & 0xff) as u8
        == b2 && ((x >> 24u32) & 0xff) as u8 == b3) by (bit_vector)
        requires
            x == (b0 as u32) | ((b1 as u32) << 8u32) | ((b2 as u32) << 16u32) | ((b3 as u32) << 24u32),
    ;
    assert(le_bytes(x) =~= s);
}

proof fn lemma_row_bytes_at(b: Seq<u8>, k: int)
    requires
        rows_valid(b),
        0 <= k < b.len() / 13,
    ensures
        k * 13 + 13 <= b.len(),
        row_bytes(row_at(b, k * 13)) == b.subrange(k * 13, k * 13 + 13),
{
    assert(k * 13 + 13 <= b.len()) by (nonlinear_arith)
        requires
            0 <= k < b.len() / 13,
    ;
    let at = k * 13;
    let sub = b.subrange(at + 1, at + 13);
    lemma_le_bytes_value(sub.subrange(0, 4));
    lemma_le_bytes_value(sub.subrange(4, 8));
    lemma_le_bytes_value(sub.subrange(8, 12));
    assert(sub.subrange(0, 4).subrange(0, 4) =~= sub.subrange(0, 4));
    assert(le_value(sub) == le_value(sub.subrange(0, 4)));
    let (p, v) = pair_of(sub);
    assert(pair_bytes(p, v) =~= sub);
    assert(row_bytes(row_at(b, at)) =~= b.subrange(at, at + 13));
}

/// Rows read from valid bytes encode back to those bytes.
pub proof fn lemma_rows_of_bytes(b: Seq<u8>)
    requires
        rows_valid(b),
    ensures
        rows_bytes(rows_of(b)) == b,
{
    let rs = rows_of(b);
    let e = rows_bytes(rs);
    assert(e.len() == b.len()) by (nonlinear_arith)
        requires
            e.len() == (b.len() / 13) * 13,
            b.len() % 13 == 0,
    ;
    assert forall|i: int| 0 <= i < b.len() implies #[trigger] e[i] == b[i] by {
        let k = i / 13;
        assert(k * 13 <= i < k * 13 + 13 && i % 13 == i - k * 13 && k < b.len() / 13) by (nonlinear_arith)
            requires
                0 <= i < b.len(),
                k == i / 13,
                b.len() % 13 == 0,
        ;
        lemma_row_bytes_at(b, k);
    }
    assert(e =~= b);
}

/// Appends the encoding of `p` and `v` to `out`.
pub fn encode_pair(out: &mut Vec<u8>, p: Point, v: Value)
    ensures
        final(out)@ == old(out)@ + pair_bytes(p, v),
{
    push_u32(out, p.x);
    push_u32(out, p.y);
    push_u32(out, v);
    assert(final(out)@ =~= old(out)@ + pair_bytes(p, v));
}

/// The encoding of `r`.
pub fn encode_row(r: &Row) -> (b: Vec<u8>)
    ensures
        b@ == row_bytes(*r),
{
    let mut b: Vec<u8> = Vec::new();
    match r {
        Row::Insert(p, v) => {
            b.push(INSERT);
            encode_pair(&mut b, *p, *v);
        },
        Row::Delete(p, v) => {
            b.push(DELETE);
            encode_pair(&mut b, *p, *v);
        },
    }
    assert(b@ =~= row_bytes(*r));
    b
}

/// The point and value encoded at `at` in `buf`.
pub fn decode_pair(buf: &Vec<u8>, at: usize) -> (r: (Point, Value))
    requires
        at + 12 <= buf@.len(),
    ensures
        r == pair_of(buf@.subrange(at as int, at + 12)),
{
    let _n = buf.len();
    let x = read_u32(buf, at);
    let y = read_u32(buf, at + 4);
    let v = read_u32(buf, at + 8);
    let ghost sub = buf@.subrange(at as int, at + 12);
    assert(sub.subrange(4, 8) =~= buf@.subrange(at + 4, at + 8));
    assert(sub.subrange(8, 12) =~= buf@.subrange(at + 8, at + 12));
    assert(sub.subrange(0, 4) =~= buf@.subrange(at as int, at + 4));
    (Point { x, y }, v)
}

} // verus!
