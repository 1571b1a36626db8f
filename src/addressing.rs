//! Arithmetic of page addressing: where a logical position lands in a chain
//! of pages of which all but the last are full.
use vstd::prelude::*;

verus! {

use vstd::arithmetic::div_mod::lemma_fundamental_div_mod_converse;
use vstd::arithmetic::mul::lemma_mul_inequality;

/// The zero-indexed page that holds zero-indexed position `pos` when every
/// page holds `page_size` elements.
pub open spec fn page_index(pos: int, page_size: int) -> int {
    pos / page_size
}

/// Page addressing is monotonic: a later position is never on an earlier
/// page.
pub proof fn lemma_page_index_monotonic(page_size: int, a: int, b: int)
    requires
        page_size > 0,
        0 <= a <= b,
    ensures
        page_index(a, page_size) <= page_index(b, page_size),
{
    vstd::arithmetic::div_mod::lemma_div_is_ordered(a, b, page_size);
}

/// Page addressing is consistent: the positions `k * page_size` through
/// `k * page_size + page_size - 1` all lie on page `k`. In particular the
/// first `page_size` positions are on page 0, position `page_size` is on
/// page 1 and positions `2 * page_size` and `2 * page_size + 1` are on page 2
/// (the latter when a page holds more than one element).
pub proof fn lemma_page_index_consistent(page_size: int, k: int, r: int)
    requires
        page_size > 0,
        k >= 0,
        0 <= r < page_size,
    ensures
        page_index(k * page_size + r, page_size) == k,
        page_index(r, page_size) == 0,
        page_index(page_size, page_size) == 1,
        page_index(2 * page_size, page_size) == 2,
        page_size > 1 ==> page_index(2 * page_size + 1, page_size) == 2,
{
    lemma_address_exact(k, page_size, r);
    lemma_address_exact(0, page_size, r);
    lemma_address_exact(1, page_size, 0);
    lemma_address_exact(2, page_size, 0);
    if page_size > 1 {
        lemma_address_exact(2, page_size, 1);
    }
}

/// In a chain of `n` pages of size `p`, all full but the last, which holds
/// `last` elements, a position below the total lies on an existing page, and
/// within what that page holds.
pub proof fn lemma_address(pos: int, p: int, n: int, last: int)
    requires
        p > 0,
        n > 0,
        0 <= last <= p,
        0 <= pos < (n - 1) * p + last,
    ensures
        0 <= pos / p < n,
        0 <= pos % p < p,
        pos / p == n - 1 ==> pos % p < last,
        pos == (pos / p) * p + pos % p,
{
    let q = pos / p;
    let r = pos % p;
    assert(pos == q * p + r && 0 <= r < p) by (nonlinear_arith)
        requires p > 0, q == pos / p, r == pos % p;
    assert(0 <= q) by (nonlinear_arith)
        requires p > 0, pos >= 0, q == pos / p;
    if q >= n {
        lemma_mul_inequality(n, q, p);
        assert(false) by (nonlinear_arith)
            requires pos == q * p + r, r >= 0, n * p <= q * p, pos < (n - 1) * p + last, last <= p;
    }
    if q == n - 1 {
        assert(r < last) by (nonlinear_arith)
            requires pos == q * p + r, q == n - 1, pos < (n - 1) * p + last;
    }
}

/// Slot `r` of page `q` lies below the total when page `q` exists and holds
/// more than `r` elements.
pub proof fn lemma_slot_in_range(q: int, r: int, p: int, n: int, last: int)
    requires
        p > 0,
        0 <= q < n,
        0 <= r < p,
        0 <= last <= p,
        q == n - 1 ==> r < last,
    ensures
        q * p + r < (n - 1) * p + last,
{
    if q < n - 1 {
        assert(q * p + r < (n - 1) * p) by (nonlinear_arith)
            requires p > 0, q < n - 1, r < p;
    }
}

/// Position `pos` falls on one of the first `n` pages exactly when it is
/// below their combined capacity.
pub proof fn lemma_within_pages(pos: int, p: int, n: int)
    requires
        p > 0,
        n >= 0,
        pos >= 0,
    ensures
        pos / p < n <==> pos < n * p,
{
    let q = pos / p;
    let r = pos % p;
    assert(pos == q * p + r && 0 <= r < p) by (nonlinear_arith)
        requires p > 0, q == pos / p, r == pos % p;
    if q < n {
        assert(pos < n * p) by (nonlinear_arith)
            requires pos == q * p + r, r < p, q < n, p > 0;
    } else {
        assert(pos >= n * p) by (nonlinear_arith)
            requires pos == q * p + r, r >= 0, q >= n, p > 0;
    }
}

/// The position `q * p + r`, with `r` below `p`, is slot `r` of page `q`.
pub proof fn lemma_address_exact(q: int, p: int, r: int)
    requires
        p > 0,
        q >= 0,
        0 <= r < p,
    ensures
        (q * p + r) / p == q,
        (q * p + r) % p == r,
{
    lemma_fundamental_div_mod_converse(q * p + r, p, q, r);
}

} // verus!
