//! An unrolled linked list: a sequence stored in fixed-capacity pages.
//!
//! Elements live in a chain of pages that each hold up to `page_size`
//! elements. Logical position `pos` is found on page `pos / page_size` at
//! offset `pos % page_size`. Only the last page may be partially filled.
//! Removal from the middle moves the last element into the vacated slot,
//! so no run of elements is ever shifted.
//!
//! Page reclamation is lazy by one page: when the trailing page becomes
//! empty it is kept as a spare, and it is released only when a later `pop`
//! has to reach into the page before it. So at rest at most one trailing
//! page is empty, and a push/pop pair at a page boundary does not
//! allocate and free a page each time.
use vstd::prelude::*;

pub mod addressing;
pub mod model;

verus! {

use crate::addressing::{
    lemma_address, lemma_address_exact, lemma_slot_in_range, lemma_within_pages, page_index,
};

/// A fixed-capacity run of elements; its buffer is sized once, when the
/// page is created.
struct Page<T> {
    items: Vec<T>,
}

impl<T> Page<T> {
    fn new(psize: usize) -> (p: Page<T>)
        ensures
            p.items@.len() == 0,
    {
        Page { items: Vec::with_capacity(psize) }
    }
}

/// An Unrolled Linked List.
/// Removing an item from the middle of the list will move the last item to
/// that position, preventing fragmentation.
pub struct Unrolled<T: Copy> {
    psize: usize,
    pages: Vec<Page<T>>,
    len: usize,
}

impl<T: Copy> View for Unrolled<T> {
    type V = Seq<T>;

    /// The elements in logical order: position `i` is slot `i % page_size`
    /// of page `i / page_size`.
    closed spec fn view(&self) -> Seq<T> {
        Seq::new(
            self.len as nat,
            |i: int| self.pages@[i / self.psize as int].items@[i % self.psize as int],
        )
    }
}

impl<T: Copy> Unrolled<T> {
    /// The number of elements each page holds.
    pub closed spec fn page_size(&self) -> nat {
        self.psize as nat
    }

    /// The number of pages currently allocated.
    pub closed spec fn num_pages(&self) -> nat {
        self.pages@.len()
    }

    /// How many elements page `i` holds.
    spec fn fill(&self, i: int) -> nat {
        self.pages@[i].items@.len()
    }

    /// Well-formedness: every page but the last is full, the last holds at
    /// most a page, and the count is the sum of what the pages hold.
    pub closed spec fn wf(&self) -> bool {
        &&& self.psize > 0
        &&& forall|i: int| 0 <= i < self.pages@.len() - 1 ==> #[trigger] self.fill(i) == self.psize
        &&& self.pages@.len() == 0 ==> self.len == 0
        &&& self.pages@.len() > 0 ==> {
            &&& self.fill(self.pages@.len() - 1) <= self.psize
            &&& self.len == (self.pages@.len() - 1) * self.psize + self.fill(self.pages@.len() - 1)
        }
    }

    /// Creates an empty list whose pages hold `page_size` elements each.
    /// No page is allocated until the first push.
    pub fn new(page_size: usize) -> (l: Unrolled<T>)
        requires
            page_size > 0,
        ensures
            l.wf(),
            l@ == Seq::<T>::empty(),
            l.page_size() == page_size,
            l.num_pages() == 0,
    {
        let l = Unrolled { psize: page_size, pages: Vec::new(), len: 0 };
        assert(l@ =~= Seq::<T>::empty());
        l
    }

    /// The number of elements in the list.
    pub fn len(&self) -> (r: usize)
        requires
            self.wf(),
        ensures
            r == self@.len(),
    {
        self.len
    }

    /// The number of pages currently allocated.
    pub fn page_count(&self) -> (r: usize)
        ensures
            r == self.num_pages(),
    {
        self.pages.len()
    }

    /// Whether enough pages exist to hold the element at index `pos`.
    fn enough_pages_for(&self, pos: usize) -> (r: bool)
        requires
            self.wf(),
        ensures
            r <==> pos < self.num_pages() * self.page_size(),
    {
        proof {
            lemma_within_pages(pos as int, self.psize as int, self.pages@.len() as int);
        }
        if self.pages.len() == 0 {
            false
        } else {
            self.page_of(pos) <= self.pages.len() - 1
        }
    }

    /// Insert an item at the end of the list.
    /// A page is added when every page is full.
    pub fn push(&mut self, item: T)
        requires
            old(self).wf(),
            old(self)@.len() < usize::MAX,
        ensures
            final(self).wf(),
            final(self)@ == old(self)@.push(item),
            final(self).page_size() == old(self).page_size(),
            final(self).num_pages() == if old(self)@.len() < old(self).num_pages()
                * old(self).page_size() {
                old(self).num_pages()
            } else {
                old(self).num_pages() + 1
            },
    {
        let ghost p = self.psize as int;
        let ghost old_n = self.pages@.len() as int;
        if !self.enough_pages_for(self.len) {
            proof {
                if old_n > 0 {
                    let f = self.fill(old_n - 1);
                    assert(f == p) by (nonlinear_arith)
                        requires self.len == (old_n - 1) * p + f, self.len >= old_n * p, f <= p;
                }
            }
            let ghost before = self.pages@;
            self.pages.push(Page::new(self.psize));
            proof {
                assert forall|i: int| 0 <= i < self.pages@.len() - 1 implies #[trigger] self.fill(
                    i,
                ) == p by {
                    assert(self.pages@[i] == before[i]);
                    if i < old_n - 1 {
                        assert(old(self).fill(i) == p);
                    }
                }
                assert((old_n - 1) * p + p == old_n * p) by (nonlinear_arith);
                assert(0 * p == 0);
                assert(old_n * p < (old_n + 1) * p) by (nonlinear_arith)
                    requires p > 0;
                assert forall|i: int| 0 <= i < self.len implies #[trigger] self@[i] == old(self)@[i] by {
                    lemma_address(i, p, old_n, old(self).fill(old_n - 1) as int);
                    assert(self.pages@[i / p] == before[i / p]);
                }
                assert(self@ =~= old(self)@);
            }
        }
        proof {
            let n = self.pages@.len() as int;
            lemma_within_pages(self.len as int, p, n);
            assert(n > 0);
            let f = self.fill(n - 1);
            assert(f < p) by (nonlinear_arith)
                requires self.len == (n - 1) * p + f, self.len < n * p;
            assert(self.wf());
        }
        let ghost mid = *self;
        let ghost n = self.pages@.len() as int;
        let last = self.pages.len() - 1;
        let page = &mut self.pages[last];
        page.items.push(item);
        self.len = self.len + 1;
        proof {
            let fill_last = mid.fill(n - 1);
            assert(fill_last < p);
            assert forall|i: int| 0 <= i < n - 1 implies #[trigger] self.fill(i) == p by {
                assert(self.pages@[i] == mid.pages@[i]);
                assert(mid.fill(i) == p);
            }
            assert forall|i: int| 0 <= i < mid.len implies #[trigger] self@[i] == mid@[i] by {
                lemma_address(i, p, n, fill_last as int);
                if i / p != n - 1 {
                    assert(self.pages@[i / p] == mid.pages@[i / p]);
                }
            }
            lemma_address_exact(n - 1, p, fill_last as int);
            assert(self@ =~= mid@.push(item));
        }
    }

    /// Remove an item from the end of the list and return it.
    /// Returns None if the list is empty.
    ///
    /// A trailing page that this leaves empty is kept as a spare; a spare
    /// found empty on entry is released before the page before it is reached.
    pub fn pop(&mut self) -> (r: Option<T>)
        requires
            old(self).wf(),
        ensures
            final(self).wf(),
            final(self).page_size() == old(self).page_size(),
            final(self).num_pages() <= old(self).num_pages(),
            old(self)@.len() == 0 ==> r is None && final(self)@ == old(self)@,
            old(self)@.len() > 0 ==> r == Some(old(self)@.last()) && final(self)@ == old(
                self,
            )@.drop_last(),
    {
        if self.len == 0 {
            return None;
        }
        let ghost p = self.psize as int;
        let ghost old_n = self.pages@.len() as int;
        proof {
            assert(old_n > 0);
        }
        // An empty trailing page is a spare left by an earlier pop: release
        // it, as the last item is on the page before.
        if self.pages[self.pages.len() - 1].items.len() == 0 {
            proof {
                assert(old_n > 1) by (nonlinear_arith)
                    requires
                        self.len > 0,
                        self.len == (old_n - 1) * p + 0,
                        old_n > 0,
                ;
                assert(self.fill(old_n - 2) == p);
                assert((old_n - 1) * p == (old_n - 2) * p + p) by (nonlinear_arith);
            }
            let ghost before = self.pages@;
            let _spare = self.pages.pop();
            proof {
                assert forall|i: int| 0 <= i < self.pages@.len() - 1 implies #[trigger] self.fill(
                    i,
                ) == p by {
                    assert(self.pages@[i] == before[i]);
                    assert(old(self).fill(i) == p);
                }
                assert forall|i: int| 0 <= i < self.len implies #[trigger] self@[i] == old(self)@[i] by {
                    lemma_address(i, p, old_n - 1, p);
                    assert(self.pages@[i / p] == before[i / p]);
                }
                assert(self@ =~= old(self)@);
                assert(self.fill(self.pages@.len() - 1) == p);
            }
        }
        let ghost mid = *self;
        let ghost n = self.pages@.len() as int;
        let ghost f = self.fill(n - 1) as int;
        proof {
            assert(f > 0);
        }
        // The last item is the last slot of the last page.
        let last = self.pages.len() - 1;
        let page = &mut self.pages[last];
        let item = page.items.pop();
        self.len = self.len - 1;
        proof {
            lemma_address_exact(n - 1, p, f - 1);
            assert forall|i: int| 0 <= i < n - 1 implies #[trigger] self.fill(i) == p by {
                assert(self.pages@[i] == mid.pages@[i]);
                assert(mid.fill(i) == p);
            }
            assert forall|i: int| 0 <= i < self.len implies #[trigger] self@[i] == mid@[i] by {
                lemma_address(i, p, n, f - 1);
                if i / p != n - 1 {
                    assert(self.pages@[i / p] == mid.pages@[i / p]);
                }
            }
            assert(self@ =~= mid@.drop_last());
        }
        item
    }

    /// The element at logical position `pos`, or None past the end.
    pub fn get(&self, pos: usize) -> (r: Option<&T>)
        requires
            self.wf(),
        ensures
            r == if pos < self@.len() {
                Some(&self@[pos as int])
            } else {
                None
            },
    {
        let page = self.page_of(pos);
        let offset = pos % self.psize;
        proof {
            self.lemma_locate(pos as int);
        }
        if page >= self.pages.len() {
            return None;
        }
        let items = &self.pages[page].items;
        if offset >= items.len() {
            return None;
        }
        Some(&items[offset])
    }

    /// A mutable reference to the element at logical position `pos`, or None
    /// past the end. Writing through it changes that element alone.
    pub fn get_mut(&mut self, pos: usize) -> (r: Option<&mut T>)
        requires
            old(self).wf(),
        ensures
            final(self).wf(),
            final(self).page_size() == old(self).page_size(),
            final(self).num_pages() == old(self).num_pages(),
            r is Some <==> pos < old(self)@.len(),
            match r {
                Some(e) => *e == old(self)@[pos as int] && final(self)@ == old(self)@.update(
                    pos as int,
                    *final(e),
                ),
                None => final(self)@ == old(self)@,
            },
    {
        let page = self.page_of(pos);
        let offset = pos % self.psize;
        proof {
            self.lemma_locate(pos as int);
        }
        if page >= self.pages.len() {
            return None;
        }
        if offset >= self.pages[page].items.len() {
            return None;
        }
        let slot = &mut self.pages[page].items[offset];
        proof {
            old(self).lemma_slot_write(after_borrow(*self), pos as int, *final(slot));
        }
        Some(slot)
    }

    /// Writing `v` into the slot of position `pos` keeps the list well-formed
    /// and changes that one element of the view.
    proof fn lemma_slot_write(&self, other: Self, pos: int, v: T)
        requires
            self.wf(),
            0 <= pos < self.len,
            other.psize == self.psize,
            other.len == self.len,
            other.pages@.len() == self.pages@.len(),
            forall|i: int|
                0 <= i < self.pages@.len() && i != pos / (self.psize as int) ==> other.pages@[i]
                    == self.pages@[i],
            other.pages@[pos / (self.psize as int)].items@ == self.pages@[pos / (
            self.psize as int)].items@.update(pos % (self.psize as int), v),
        ensures
            other.wf(),
            other@ == self@.update(pos, v),
    {
        let p = self.psize as int;
        let n = self.pages@.len() as int;
        self.lemma_locate(pos);
        assert forall|i: int| 0 <= i < n - 1 implies #[trigger] other.fill(i) == p by {
            assert(self.fill(i) == p);
        }
        assert forall|i: int| 0 <= i < self.len implies #[trigger] other@[i] == self@.update(
            pos,
            v,
        )[i] by {
            self.lemma_locate(i);
            if i / p == pos / p && i % p == pos % p {
                assert(i == pos);
            }
        }
        assert(other@ =~= self@.update(pos, v));
    }

    /// Exchanges the elements at positions `a` and `b`, which may lie on
    /// different pages.
    fn swap_slots(&mut self, a: usize, b: usize)
        requires
            old(self).wf(),
            a < old(self)@.len(),
            b < old(self)@.len(),
        ensures
            final(self).wf(),
            final(self).page_size() == old(self).page_size(),
            final(self).num_pages() == old(self).num_pages(),
            final(self)@ == old(self)@.update(a as int, old(self)@[b as int]).update(
                b as int,
                old(self)@[a as int],
            ),
    {
        let x = *self.get(a).unwrap();
        let y = *self.get(b).unwrap();
        match self.get_mut(a) {
            Some(slot) => {
                *slot = y;
            },
            None => {},
        }
        match self.get_mut(b) {
            Some(slot) => {
                *slot = x;
            },
            None => {},
        }
    }

    /// Removes and returns the item at a given position.
    /// Returns None if no item exists at that position.
    ///
    /// The last item takes the place of the removed one, so the order of the
    /// items after `pos` is not kept.
    pub fn remove(&mut self, pos: usize) -> (r: Option<T>)
        requires
            old(self).wf(),
        ensures
            final(self).wf(),
            final(self).page_size() == old(self).page_size(),
            final(self).num_pages() <= old(self).num_pages(),
            pos >= old(self)@.len() ==> r is None && final(self)@ == old(self)@,
            pos < old(self)@.len() ==> r == Some(old(self)@[pos as int]) && final(self)@ == old(
                self,
            )@.update(pos as int, old(self)@.last()).drop_last(),
    {
        if self.len == 0 {
            return None;
        }
        let max_idx = self.len - 1;
        if pos > max_idx {
            return None;
        }
        // Swap with last, unless it's last
        if pos != max_idx {
            self.swap_slots(pos, max_idx);
        }
        let r = self.pop();
        proof {
            assert(self@ =~= old(self)@.update(pos as int, old(self)@.last()).drop_last());
        }
        r
    }

    /// Where position `pos` lands: it is below the length exactly when its
    /// page exists and holds more than its offset.
    proof fn lemma_locate(&self, pos: int)
        requires
            self.wf(),
            pos >= 0,
        ensures
            pos == (pos / self.psize as int) * self.psize + pos % (self.psize as int),
            0 <= pos % (self.psize as int) < self.psize,
            pos < self.len <==> {
                &&& 0 <= pos / (self.psize as int) < self.pages@.len()
                &&& pos % (self.psize as int) < self.fill(pos / (self.psize as int))
            },
    {
        let p = self.psize as int;
        let n = self.pages@.len() as int;
        let q = pos / p;
        let r = pos % p;
        assert(pos == q * p + r && 0 <= r < p && q >= 0) by (nonlinear_arith)
            requires p > 0, q == pos / p, r == pos % p, pos >= 0;
        if pos < self.len {
            lemma_address(pos, p, n, self.fill(n - 1) as int);
            if q < n - 1 {
                assert(self.fill(q) == p);
            }
        } else if 0 <= q < n && r < self.fill(q) {
            if q < n - 1 {
                assert(self.fill(q) == p);
            }
            lemma_slot_in_range(q, r, p, n, self.fill(n - 1) as int);
        }
    }

    /// Returns the zero-indexed page that a zero-indexed item is on.
    pub fn page_of(&self, pos: usize) -> (r: usize)
        requires
            self.wf(),
        ensures
            r == page_index(pos as int, self.page_size() as int),
    {
        pos / self.psize
    }
}

} // verus!
