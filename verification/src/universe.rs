//! The symbols to fetch for a batch, read off the daily bars that the store
//! already holds.

use vstd::prelude::*;

verus! {

/// How many symbol numbers there are.
pub const SYMBOL_NUMBERS: usize = 65_536;

/// Row `row` of the scanned columns counts for the batch: it lies within
/// both columns and, where only traded symbols are wanted, has volume.
pub open spec fn counts(symbols: Seq<u16>, volumes: Seq<u64>, traded_only: bool, row: int) -> bool {
    &&& 0 <= row < symbols.len()
    &&& traded_only ==> row < volumes.len() && volumes[row] > 0
}

/// Some row that counts for the batch carries the symbol number `symbol`.
pub open spec fn is_active(
    symbols: Seq<u16>,
    volumes: Seq<u64>,
    traded_only: bool,
    symbol: u16,
) -> bool {
    exists|row: int| #[trigger] counts(symbols, volumes, traded_only, row) && symbols[row] == symbol
}

/// The symbol numbers of the rows of a scan that count for the batch, each
/// once.  `symbols` and `volumes` are the two columns of the scan, row by
/// row; with `traded_only` a row counts when its volume is above zero, and
/// without it every row counts and `volumes` is not read.
pub fn active_symbols(symbols: &Vec<u16>, volumes: &Vec<u64>, traded_only: bool) -> (r: Vec<u16>)
    ensures
        r@.no_duplicates(),
        forall|symbol: u16|
            r@.contains(symbol) <==> is_active(symbols@, volumes@, traded_only, symbol),
{
    let mut seen: Vec<bool> = Vec::new();
    let mut n: usize = 0;
    while n < SYMBOL_NUMBERS
        invariant
            n <= SYMBOL_NUMBERS,
            seen@.len() == n,
            forall|k: int| 0 <= k < n ==> !seen@[k],
        decreases SYMBOL_NUMBERS - n,
    {
        seen.push(false);
        n = n + 1;
    }
    let mut out: Vec<u16> = Vec::new();
    let rows: usize = if traded_only && volumes.len() < symbols.len() {
        volumes.len()
    } else {
        symbols.len()
    };
    let mut i: usize = 0;
    while i < rows
        invariant
            i <= rows <= symbols@.len(),
            traded_only ==> rows <= volumes@.len(),
            seen@.len() == SYMBOL_NUMBERS,
            out@.no_duplicates(),
            forall|symbol: u16| seen@[symbol as int] <==> out@.contains(symbol),
            forall|symbol: u16|
                out@.contains(symbol) <==> exists|row: int|
                    row < i && #[trigger] counts(symbols@, volumes@, traded_only, row)
                        && symbols@[row] == symbol,
        decreases rows - i,
    {
        let symbol: u16 = symbols[i];
        let active: bool = !traded_only || volumes[i] > 0;
        let ghost before = out@;
        if active && !seen[symbol as usize] {
            seen.set(symbol as usize, true);
            out.push(symbol);
        }
        proof {
            let here = i as int;
            assert forall|s: u16| seen@[s as int] <==> out@.contains(s) by {
                if before.contains(s) {
                    let k = choose|k: int| 0 <= k < before.len() && before[k] == s;
                    assert(out@[k] == s);
                }
                if out@.len() > before.len() {
                    assert(out@[before.len() as int] == symbol);
                    assert(out@.drop_last() =~= before);
                }
                if out@.contains(s) && s != symbol {
                    let k = choose|k: int| 0 <= k < out@.len() && out@[k] == s;
                    assert(before[k] == s);
                }
            }
            assert forall|s: u16|
                out@.contains(s) <==> exists|row: int|
                    row < i + 1 && #[trigger] counts(symbols@, volumes@, traded_only, row)
                        && symbols@[row] == s by {
                if out@.contains(s) {
                    if before.contains(s) {
                        let row = choose|row: int|
                            row < i && #[trigger] counts(symbols@, volumes@, traded_only, row)
                                && symbols@[row] == s;
                        assert(row < i + 1 && counts(symbols@, volumes@, traded_only, row)
                            && symbols@[row] == s);
                    } else {
                        assert(s == symbol);
                        assert(counts(symbols@, volumes@, traded_only, here));
                    }
                }
                if exists|row: int|
                    row < i + 1 && #[trigger] counts(symbols@, volumes@, traded_only, row)
                        && symbols@[row] == s {
                    let row = choose|row: int|
                        row < i + 1 && #[trigger] counts(symbols@, volumes@, traded_only, row)
                            && symbols@[row] == s;
                    if row < i {
                        assert(before.contains(s));
                    } else {
                        assert(row == here);
                        assert(seen@[s as int]);
                    }
                }
            }
        }
        i = i + 1;
    }
    proof {
        assert forall|symbol: u16|
            out@.contains(symbol) <==> is_active(symbols@, volumes@, traded_only, symbol) by {
            if is_active(symbols@, volumes@, traded_only, symbol) {
                let row = choose|row: int| #[trigger]
                    counts(symbols@, volumes@, traded_only, row) && symbols@[row] == symbol;
                assert(row < rows);
            }
        }
    }
    out
}

} // verus!
