use unrolled::Unrolled;

#[test]
fn utilities() {
    let psize = 10usize;
    let list: Unrolled<usize> = Unrolled::new(psize);
    assert!(list.page_of(0) == 0);
    assert!(list.page_of(1) == 0);
    assert!(list.page_of(psize) == 1);
    assert!(list.page_of(psize - 1) == 0);
    assert!(list.page_of(psize * 2) == 2);
    assert!(list.page_of(psize * 2 + 1) == 2);
}

#[test]
fn smoke_push_pop() {
    let psize = 10usize;
    let mut list: Unrolled<i32> = Unrolled::new(psize);

    assert!(list.page_count() == 0);

    let psize: i32 = psize as i32;

    println!("Pushing...");

    for n in 0i32..(3 * psize) {
        println!("Push {}. real_len={} expected_len={}", n, list.len(), n);
        assert!(list.len() == n as usize);
        list.push(n);
    }

    println!("Popping non-empty...");

    for n in (0..3i32 * psize).rev() {
        let pop = list.pop().unwrap();
        println!("Pop {} received {}.  real_len={} expected_len={}", n, pop, list.len(), n);
        assert!(list.len() == n as usize);
        assert!(pop == n);
    }

    println!("Popping empty...");

    for _ in 0i32..(3 * psize) {
        let pop = list.pop();
        println!("Pop on empty list expects None, received {:?}", pop);
        assert!(pop == None);
        assert!(list.len() == 0);
    }
}

#[test]
fn smoke_remove() {
    let mut list: Unrolled<i32> = Unrolled::new(10usize);
    list.push(1);
    list.push(2);
    assert!(list.remove(0) == Some(1));
    println!("Removed 1");
    assert!(list.remove(0) == Some(2));
    println!("Removed 2");
    assert!(list.remove(0) == None);
    println!("Removed None");
}

#[test]
fn page_of_boundaries_for_several_sizes() {
    for psize in [1usize, 2, 3, 7, 10, 512] {
        let list: Unrolled<u8> = Unrolled::new(psize);
        for pos in 0..psize {
            assert_eq!(list.page_of(pos), 0);
        }
        assert_eq!(list.page_of(psize), 1);
        assert_eq!(list.page_of(2 * psize), 2);
        assert_eq!(list.page_of(2 * psize + 1), if psize == 1 { 3 } else { 2 });
        let mut prev = 0usize;
        for pos in 0..(5 * psize) {
            let page = list.page_of(pos);
            assert!(page >= prev);
            prev = page;
        }
    }
}

#[test]
fn push_pop_symmetry_small_pages() {
    let mut list: Unrolled<u32> = Unrolled::new(3);
    for n in 0u32..17 {
        list.push(n);
    }
    assert_eq!(list.len(), 17);
    for n in (0u32..17).rev() {
        assert_eq!(list.pop(), Some(n));
        assert_eq!(list.len(), n as usize);
    }
    assert_eq!(list.pop(), None);
    assert_eq!(list.len(), 0);
}

#[test]
fn length_counts_pushes_minus_successful_pops() {
    let mut list: Unrolled<u64> = Unrolled::new(4);
    let mut pushes = 0usize;
    let mut pops = 0usize;
    for round in 0u64..40 {
        if round % 3 == 2 {
            if list.pop().is_some() {
                pops += 1;
            }
        } else {
            list.push(round);
            pushes += 1;
        }
        assert_eq!(list.len(), pushes - pops);
    }
    while list.pop().is_some() {
        pops += 1;
    }
    assert_eq!(list.pop(), None);
    assert_eq!(pushes, pops);
    assert_eq!(list.len(), 0);
}

#[test]
fn remove_reorders_with_last() {
    let mut list: Unrolled<i32> = Unrolled::new(10);
    list.push(1);
    list.push(2);
    assert_eq!(list.remove(0), Some(1));
    assert_eq!(list.len(), 1);
    assert_eq!(list.get(0), Some(&2));
    assert_eq!(list.get(1), None);
}

#[test]
fn remove_across_page_boundary() {
    let mut list: Unrolled<u32> = Unrolled::new(10);
    for n in 0u32..30 {
        list.push(n);
    }
    assert_eq!(list.page_count(), 3);
    assert_eq!(list.remove(0), Some(0));
    assert_eq!(list.len(), 29);
    let mut contents = Vec::new();
    for pos in 0..list.len() {
        contents.push(*list.get(pos).unwrap());
    }
    let mut expected = vec![29u32];
    expected.extend(1u32..29);
    assert_eq!(contents, expected);
    assert_eq!(list.page_count(), 3);
}

#[test]
fn remove_within_one_page_and_last() {
    let mut list: Unrolled<char> = Unrolled::new(4);
    for c in ['a', 'b', 'c', 'd', 'e', 'f'] {
        list.push(c);
    }
    assert_eq!(list.remove(4), Some('e'));
    assert_eq!(list.get(4), Some(&'f'));
    assert_eq!(list.remove(4), Some('f'));
    assert_eq!(list.len(), 4);
    assert_eq!(list.remove(1), Some('b'));
    assert_eq!(list.get(1), Some(&'d'));
    assert_eq!(list.remove(3), None);
    assert_eq!(list.remove(usize::MAX), None);
    assert_eq!(list.len(), 3);
}

#[test]
fn remove_from_empty_is_absent() {
    let mut list: Unrolled<i32> = Unrolled::new(5);
    assert_eq!(list.remove(0), None);
    assert_eq!(list.len(), 0);
}

#[test]
fn get_past_end_is_absent_after_any_history() {
    for psize in [1usize, 2, 5] {
        let mut list: Unrolled<i64> = Unrolled::new(psize);
        assert_eq!(list.get(0), None);
        assert_eq!(list.get(usize::MAX), None);
        for n in 0i64..12 {
            list.push(n);
        }
        assert_eq!(list.remove(3), Some(3));
        list.pop();
        list.pop();
        let len = list.len();
        assert_eq!(len, 9);
        for pos in len..(len + 3 * psize + 2) {
            assert_eq!(list.get(pos), None);
            assert!(list.get_mut(pos).is_none());
        }
        assert_eq!(list.get(usize::MAX), None);
        for pos in 0..len {
            assert!(list.get(pos).is_some());
        }
    }
}

#[test]
fn get_mut_changes_one_element() {
    let mut list: Unrolled<i32> = Unrolled::new(3);
    for n in 0..7 {
        list.push(n);
    }
    *list.get_mut(4).unwrap() = 40;
    assert_eq!(list.get(4), Some(&40));
    for pos in [0usize, 1, 2, 3, 5, 6] {
        assert_eq!(list.get(pos), Some(&(pos as i32)));
    }
    assert_eq!(list.len(), 7);
}

#[test]
fn trailing_page_is_kept_as_spare_by_one() {
    let mut list: Unrolled<u8> = Unrolled::new(2);
    for n in 0u8..5 {
        list.push(n);
    }
    assert_eq!(list.page_count(), 3);
    // Emptying the last page keeps it.
    assert_eq!(list.pop(), Some(4));
    assert_eq!(list.page_count(), 3);
    // Pushing again reuses the spare page.
    list.push(9);
    assert_eq!(list.page_count(), 3);
    assert_eq!(list.pop(), Some(9));
    // Reaching into the page before releases the spare.
    assert_eq!(list.pop(), Some(3));
    assert_eq!(list.page_count(), 2);
    assert_eq!(list.pop(), Some(2));
    assert_eq!(list.pop(), Some(1));
    assert_eq!(list.pop(), Some(0));
    assert_eq!(list.page_count(), 1);
    assert_eq!(list.pop(), None);
    assert_eq!(list.page_count(), 1);
}

#[test]
fn page_size_one() {
    let mut list: Unrolled<i32> = Unrolled::new(1);
    for n in 0..5 {
        list.push(n * 10);
    }
    assert_eq!(list.page_count(), 5);
    assert_eq!(list.remove(1), Some(10));
    assert_eq!(list.get(1), Some(&40));
    assert_eq!(list.len(), 4);
}
