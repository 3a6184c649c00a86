//! Fetched records and the total orders in which a batch is committed.

use std::cmp::Ordering;
use vstd::prelude::*;

verus! {

/// One decoded data point of the source.  `ts` is its timestamp in
/// nanoseconds, `id` the identifier that tells it from every other record of
/// its source, `seq_id` the source's own sequence number where it gives one.
/// The payload is carried along and never read.
#[derive(Clone, Debug, PartialEq, Eq)]
pub struct Record<P> {
    pub ts: i64,
    pub symbol: String,
    pub id: u64,
    pub seq_id: u64,
    pub payload: P,
}

/// The key by which the records of a batch are ordered.
#[derive(Clone, Copy, Debug, PartialEq, Eq, Structural)]
pub enum OrderKey {
    /// By timestamp, equal timestamps by symbol.
    TimestampSymbol,
    /// By the source's sequence number, equal numbers by symbol.
    SequenceId,
}

/// The bytes of a symbol, as the text is stored.
pub open spec fn symbol_bytes(symbol: String) -> Seq<u8> {
    vstd::utf8::encode_utf8(symbol@)
}

/// `a` comes no later than `b` in dictionary order: at the first place where
/// the two differ `a` holds the smaller byte, or `a` ends there.
pub open spec fn lex_le(a: Seq<u8>, b: Seq<u8>) -> bool {
    exists|k: int| #[trigger] lex_split(a, b, k)
}

/// `a` and `b` agree on their first `k` bytes, and there `a` ends or holds
/// the smaller byte.
pub open spec fn lex_split(a: Seq<u8>, b: Seq<u8>, k: int) -> bool {
    &&& 0 <= k <= a.len()
    &&& k <= b.len()
    &&& forall|i: int| 0 <= i < k ==> a[i] == b[i]
    &&& k == a.len() || (k < b.len() && a[k] < b[k])
}

/// The number by which `order` ranks a record first.
pub open spec fn rank<P>(order: OrderKey, r: Record<P>) -> int {
    match order {
        OrderKey::TimestampSymbol => r.ts as int,
        OrderKey::SequenceId => r.seq_id as int,
    }
}

/// `a` may stand before `b` under `order`.
pub open spec fn precedes<P>(order: OrderKey, a: Record<P>, b: Record<P>) -> bool {
    rank(order, a) < rank(order, b) || (rank(order, a) == rank(order, b) && lex_le(
        symbol_bytes(a.symbol),
        symbol_bytes(b.symbol),
    ))
}

/// Every record may stand before every record that follows it.
pub open spec fn sorted<P>(s: Seq<Record<P>>, order: OrderKey) -> bool {
    forall|i: int, j: int| 0 <= i < j < s.len() ==> precedes(order, #[trigger] s[i], #[trigger] s[j])
}

/// Dictionary order ranks any two byte strings.
pub proof fn lemma_lex_total(a: Seq<u8>, b: Seq<u8>)
    ensures
        lex_le(a, b) || lex_le(b, a),
    decreases a.len(),
{
    let k = first_difference(a, b, 0);
    lemma_first_difference(a, b, 0);
    if k == a.len() {
        assert(lex_split(a, b, k));
    } else if k == b.len() {
        assert(lex_split(b, a, k));
    } else if a[k] < b[k] {
        assert(lex_split(a, b, k));
    } else {
        assert(lex_split(b, a, k));
    }
}

/// The first place at or after `from` where `a` and `b` differ or one ends.
pub open spec fn first_difference(a: Seq<u8>, b: Seq<u8>, from: int) -> int
    decreases a.len() - from,
{
    if 0 <= from < a.len() && from < b.len() && a[from] == b[from] {
        first_difference(a, b, from + 1)
    } else {
        from
    }
}

/// Up to their first difference two byte strings agree.
pub proof fn lemma_first_difference(a: Seq<u8>, b: Seq<u8>, from: int)
    requires
        0 <= from <= a.len(),
        from <= b.len(),
        forall|i: int| 0 <= i < from ==> a[i] == b[i],
    ensures
        from <= first_difference(a, b, from) <= a.len(),
        first_difference(a, b, from) <= b.len(),
        forall|i: int| 0 <= i < first_difference(a, b, from) ==> a[i] == b[i],
        first_difference(a, b, from) < a.len() && first_difference(a, b, from) < b.len()
            ==> a[first_difference(a, b, from)] != b[first_difference(a, b, from)],
    decreases a.len() - from,
{
    if from < a.len() && from < b.len() && a[from] == b[from] {
        lemma_first_difference(a, b, from + 1);
    }
}

/// Two byte strings that each come no later than the other are the same.
pub proof fn lemma_lex_antisymmetric(a: Seq<u8>, b: Seq<u8>)
    requires
        lex_le(a, b),
        lex_le(b, a),
    ensures
        a == b,
{
    let k = choose|k: int| lex_split(a, b, k);
    let m = choose|m: int| lex_split(b, a, m);
    if k < m {
        assert(b[k] == a[k]);
    } else if m < k {
        assert(a[m] == b[m]);
    }
    assert(a =~= b);
}

/// Dictionary order is transitive.
pub proof fn lemma_lex_transitive(a: Seq<u8>, b: Seq<u8>, c: Seq<u8>)
    requires
        lex_le(a, b),
        lex_le(b, c),
    ensures
        lex_le(a, c),
{
    let k = choose|k: int| lex_split(a, b, k);
    let m = choose|m: int| lex_split(b, c, m);
    if k <= m {
        if k == a.len() {
            assert(lex_split(a, c, k));
        } else if k < m {
            assert(b[k] == c[k]);
            assert(lex_split(a, c, k));
        } else {
            assert(lex_split(a, c, k));
        }
    } else {
        assert(a[m] == b[m]);
        assert(lex_split(a, c, m));
    }
}

/// Where two byte strings first differ decides their dictionary order.
pub proof fn lemma_lex_by_difference(a: Seq<u8>, b: Seq<u8>)
    ensures
        ({
            let k = first_difference(a, b, 0);
            &&& 0 <= k <= a.len()
            &&& k <= b.len()
            &&& lex_le(a, b) <==> k == a.len() || (k < b.len() && a[k] < b[k])
            &&& lex_le(b, a) <==> k == b.len() || (k < a.len() && b[k] < a[k])
            &&& a == b <==> k == a.len() && k == b.len()
            &&& k < a.len() && k < b.len() ==> a[k] != b[k]
        }),
{
    let k = first_difference(a, b, 0);
    lemma_first_difference(a, b, 0);
    if k == a.len() || (k < b.len() && a[k] < b[k]) {
        assert(lex_split(a, b, k));
    }
    if k == b.len() || (k < a.len() && b[k] < a[k]) {
        assert(lex_split(b, a, k));
    }
    if k == a.len() && k == b.len() {
        assert(a =~= b);
    }
    if lex_le(a, b) && lex_le(b, a) {
        lemma_lex_antisymmetric(a, b);
    }
    lemma_lex_total(a, b);
}

/// The length of the longest prefix that two byte strings share.
pub fn first_mismatch(a: &[u8], b: &[u8]) -> (r: usize)
    ensures
        r == first_difference(a@, b@, 0),
{
    let mut i: usize = 0;
    while i < a.len() && i < b.len() && a[i] == b[i]
        invariant
            i <= a@.len(),
            i <= b@.len(),
            first_difference(a@, b@, 0) == first_difference(a@, b@, i as int),
        decreases a@.len() - i,
    {
        i = i + 1;
    }
    i
}

/// Whether `a` comes no later than `b` in dictionary order.
pub fn bytes_le(a: &[u8], b: &[u8]) -> (r: bool)
    ensures
        r == lex_le(a@, b@),
{
    let i: usize = first_mismatch(a, b);
    proof {
        lemma_lex_by_difference(a@, b@);
    }
    i == a.len() || (i < b.len() && a[i] < b[i])
}

/// Ranks two records under `order`: `Less` where only `a` may stand before
/// `b`, `Greater` where only `b` may stand before `a`, `Equal` where rank
/// and symbol agree.
pub fn compare<P>(order: OrderKey, a: &Record<P>, b: &Record<P>) -> (r: Ordering)
    ensures
        r is Less <==> precedes(order, *a, *b) && !precedes(order, *b, *a),
        r is Greater <==> precedes(order, *b, *a) && !precedes(order, *a, *b),
        r is Equal <==> precedes(order, *a, *b) && precedes(order, *b, *a),
        r is Equal <==> rank(order, *a) == rank(order, *b) && a.symbol@ == b.symbol@,
{
    let before: bool = match order {
        OrderKey::TimestampSymbol => a.ts < b.ts,
        OrderKey::SequenceId => a.seq_id < b.seq_id,
    };
    let behind: bool = match order {
        OrderKey::TimestampSymbol => a.ts > b.ts,
        OrderKey::SequenceId => a.seq_id > b.seq_id,
    };
    if before {
        return Ordering::Less;
    }
    if behind {
        return Ordering::Greater;
    }
    let x = a.symbol.as_str().as_bytes();
    let y = b.symbol.as_str().as_bytes();
    let i: usize = first_mismatch(x, y);
    proof {
        lemma_lex_by_difference(x@, y@);
        lemma_symbol_bytes_injective(a.symbol, b.symbol);
    }
    if i == x.len() && i == y.len() {
        Ordering::Equal
    } else if i == x.len() || (i < y.len() && x[i] < y[i]) {
        Ordering::Less
    } else {
        Ordering::Greater
    }
}

/// Two symbols with the same bytes are the same text.
pub proof fn lemma_symbol_bytes_injective(a: String, b: String)
    ensures
        symbol_bytes(a) == symbol_bytes(b) <==> a@ == b@,
{
    if symbol_bytes(a) == symbol_bytes(b) {
        vstd::utf8::encode_utf8_decode_utf8(a@);
        vstd::utf8::encode_utf8_decode_utf8(b@);
    }
}

/// Any two records can be ranked: one of them may stand before the other.
pub proof fn lemma_precedes_total<P>(order: OrderKey, a: Record<P>, b: Record<P>)
    ensures
        precedes(order, a, b) || precedes(order, b, a),
{
    lemma_lex_total(symbol_bytes(a.symbol), symbol_bytes(b.symbol));
}

/// Ranking carries over: what may stand before a record may stand before
/// all that the record may stand before.
pub proof fn lemma_precedes_transitive<P>(
    order: OrderKey,
    a: Record<P>,
    b: Record<P>,
    c: Record<P>,
)
    requires
        precedes(order, a, b),
        precedes(order, b, c),
    ensures
        precedes(order, a, c),
{
    if rank(order, a) == rank(order, b) && rank(order, b) == rank(order, c) {
        lemma_lex_transitive(
            symbol_bytes(a.symbol),
            symbol_bytes(b.symbol),
            symbol_bytes(c.symbol),
        );
    }
}

/// Two records that may each stand before the other agree in rank and
/// symbol: the order tells apart all records that differ in either.
pub proof fn lemma_precedes_antisymmetric<P>(order: OrderKey, a: Record<P>, b: Record<P>)
    requires
        precedes(order, a, b),
        precedes(order, b, a),
    ensures
        rank(order, a) == rank(order, b),
        a.symbol@ == b.symbol@,
{
    lemma_lex_antisymmetric(symbol_bytes(a.symbol), symbol_bytes(b.symbol));
    lemma_symbol_bytes_injective(a.symbol, b.symbol);
}

/// Each record of the run may stand before the one right after it.
pub open spec fn adjacent_sorted<P>(s: Seq<Record<P>>, order: OrderKey) -> bool {
    forall|i: int| 0 <= i < s.len() - 1 ==> precedes(order, #[trigger] s[i], s[i + 1])
}

/// A run is in order throughout exactly when every two neighbours are.
pub proof fn lemma_sorted_adjacent<P>(s: Seq<Record<P>>, order: OrderKey)
    ensures
        sorted(s, order) <==> adjacent_sorted(s, order),
{
    if adjacent_sorted(s, order) {
        assert forall|i: int, j: int| 0 <= i < j < s.len() implies precedes(
            order,
            #[trigger] s[i],
            #[trigger] s[j],
        ) by {
            lemma_adjacent_reach(s, order, i, j);
        }
    }
    if sorted(s, order) {
        assert forall|i: int| 0 <= i < s.len() - 1 implies precedes(
            order,
            #[trigger] s[i],
            s[i + 1],
        ) by {
            assert(precedes(order, s[i], s[i + 1]));
        }
    }
}

/// In a run whose neighbours are in order, a record may stand before any
/// later one.
proof fn lemma_adjacent_reach<P>(s: Seq<Record<P>>, order: OrderKey, i: int, j: int)
    requires
        adjacent_sorted(s, order),
        0 <= i < j < s.len(),
    ensures
        precedes(order, s[i], s[j]),
    decreases j - i,
{
    if j == i + 1 {
        assert(precedes(order, s[i], s[i + 1]));
    } else {
        lemma_adjacent_reach(s, order, i, j - 1);
        assert(precedes(order, s[j - 1], s[j - 1 + 1]));
        lemma_precedes_transitive(order, s[i], s[j - 1], s[j]);
    }
}

} // verus!
