use lcrq::crq::accepts;
use lcrq::crq::visit;
use lcrq::crq::Closed;
use lcrq::crq::SlotVisit;
use lcrq::crq::COUNTER_LIMIT;
use lcrq::crq::CRQ;
use lcrq::crq::NO_SUCCESSOR;
use lcrq::crq::RING_SIZE;
use lcrq::lcrq::LCRQ;
use lcrq::node::Node;

#[test]
fn test_enqueue_ring_plus_one() {
    let mut lcrq = LCRQ::new();
    for i in 0..RING_SIZE + 1 {
        lcrq.enqueue(100 + i as u64);
    }
}

#[test]
fn test_enqueue_front_load() {
    let mut lcrq = LCRQ::new();
    for i in 0..RING_SIZE * 10 {
        lcrq.enqueue(100 + i as u64);
    }
    for i in 0..RING_SIZE * 10 {
        assert!(lcrq.dequeue() == Some(100 + i as u64));
    }
}

#[test]
fn four_values_come_out_in_order() {
    let mut lcrq = LCRQ::new();
    for v in [100u64, 101, 102, 103] {
        lcrq.enqueue(v);
    }
    assert_eq!(lcrq.dequeue(), Some(100));
    assert_eq!(lcrq.dequeue(), Some(101));
    assert_eq!(lcrq.dequeue(), Some(102));
    assert_eq!(lcrq.dequeue(), Some(103));
    assert_eq!(lcrq.dequeue(), None);
}

#[test]
fn fifth_value_goes_into_a_second_ring() {
    let mut lcrq = LCRQ::new();
    for v in 100u64..105 {
        lcrq.enqueue(v);
    }
    for v in 100u64..105 {
        assert_eq!(lcrq.dequeue(), Some(v));
    }
    assert_eq!(lcrq.dequeue(), None);
}

#[test]
fn fresh_queue_is_empty() {
    let mut lcrq = LCRQ::new();
    assert_eq!(lcrq.dequeue(), None);
    assert_eq!(lcrq.dequeue(), None);
    lcrq.enqueue(7);
    assert_eq!(lcrq.dequeue(), Some(7));
    assert_eq!(lcrq.dequeue(), None);
}

#[test]
fn alternating_enqueue_and_dequeue() {
    let mut lcrq = LCRQ::new();
    for i in 0..RING_SIZE * 10 {
        lcrq.enqueue(100 + i as u64);
        assert_eq!(lcrq.dequeue(), Some(100 + i as u64));
    }
    assert_eq!(lcrq.dequeue(), None);
}

#[test]
fn producer_and_consumer_taking_turns() {
    let mut lcrq = LCRQ::new();
    let mut produced: u64 = 0;
    let mut consumed: u64 = 0;
    let total = (RING_SIZE * 100) as u64;
    while consumed < total {
        let burst = 1 + (produced % 7);
        for _ in 0..burst {
            if produced < total {
                lcrq.enqueue(100 + produced);
                produced += 1;
            }
        }
        for _ in 0..3 {
            if let Some(number) = lcrq.dequeue() {
                assert_eq!(number, 100 + consumed);
                consumed += 1;
            }
        }
    }
    assert_eq!(lcrq.dequeue(), None);
}

#[test]
fn two_producers_one_consumer_taking_turns() {
    let mut lcrq = LCRQ::new();
    let mut seen = vec![false; 200];
    let mut count = 0;
    for i in 0..100u64 {
        lcrq.enqueue(100000 + i);
        lcrq.enqueue(100100 + i);
        if i % 2 == 1 {
            while let Some(number) = lcrq.dequeue() {
                assert!(number >= 100000);
                assert!(number < 100200);
                assert!(!seen[(number - 100000) as usize]);
                seen[(number - 100000) as usize] = true;
                count += 1;
            }
        }
    }
    assert_eq!(count, 200);
}

#[test]
fn new_ring_is_open_and_empty() {
    let crq = CRQ::new();
    assert_eq!(crq.head(), 0);
    assert_eq!(crq.tail(), 0);
    assert!(!crq.is_closed());
    assert_eq!(crq.next(), NO_SUCCESSOR);
    assert!(!crq.is_starving());
    for i in 0..RING_SIZE as u64 {
        let cell = crq.slot(i);
        assert_eq!(cell.index(), i);
        assert_eq!(cell.value(), 0);
        assert!(cell.is_safe());
    }
}

#[test]
fn ring_closes_when_full() {
    let mut crq = CRQ::new();
    for i in 0..RING_SIZE as u64 {
        assert!(crq.enqueue(100 + i).is_ok());
        assert_eq!(crq.tail(), i + 1);
    }
    assert!(!crq.is_closed());
    assert!(crq.enqueue(200).is_err());
    assert!(crq.is_closed());
    assert_eq!(crq.tail(), RING_SIZE as u64 + 1);
    assert!(crq.enqueue(201).is_err());
    assert!(crq.is_closed());
    for i in 0..RING_SIZE as u64 {
        assert_eq!(crq.dequeue(), Some(100 + i));
    }
    assert_eq!(crq.dequeue(), None);
    assert!(crq.is_closed());
    assert!(crq.enqueue(202).is_err());
    assert_eq!(crq.dequeue(), None);
}

#[test]
fn cell_indices_stay_in_their_cells() {
    let mut crq = CRQ::new();
    let mut before = [0u64; RING_SIZE];
    for round in 0..50u64 {
        if round % 3 != 2 {
            let _ = crq.enqueue(1000 + round);
        }
        if round % 2 == 1 {
            let _ = crq.dequeue();
        }
        for i in 0..RING_SIZE as u64 {
            let index = crq.slot(i).index();
            assert_eq!(index % RING_SIZE as u64, i);
            assert!(index >= before[i as usize]);
            before[i as usize] = index;
        }
    }
}

#[test]
fn dequeue_on_empty_ring_uses_up_a_position() {
    let mut crq = CRQ::new();
    assert_eq!(crq.dequeue(), None);
    assert_eq!(crq.head(), 1);
    assert_eq!(crq.tail(), 1);
    assert_eq!(crq.slot(0).index(), RING_SIZE as u64);
    assert!(crq.enqueue(5).is_ok());
    assert_eq!(crq.slot(1).value(), 5);
    assert_eq!(crq.slot(1).index(), 1);
    assert_eq!(crq.dequeue(), Some(5));
    assert_eq!(crq.head(), 2);
    assert_eq!(crq.slot(1).index(), 1 + RING_SIZE as u64);
}

#[test]
fn fetch_and_add_tail_returns_the_word_before() {
    let mut crq = CRQ::new();
    let claimed = crq.fetch_and_add_tail();
    assert_eq!(claimed.flag_and_value(), (false, 0));
    assert_eq!(crq.tail(), 1);
    crq.close();
    let claimed = crq.fetch_and_add_tail();
    assert_eq!(claimed.flag_and_value(), (true, 1));
    assert_eq!(crq.tail(), 2);
    assert!(crq.is_closed());
}

#[test]
fn close_keeps_the_tail_counter() {
    let mut crq = CRQ::new();
    assert!(crq.enqueue(9).is_ok());
    crq.close();
    assert!(crq.is_closed());
    assert_eq!(crq.tail(), 1);
    crq.close();
    assert!(crq.is_closed());
    assert_eq!(crq.tail(), 1);
}

#[test]
fn fix_state_brings_tail_up_to_head_and_keeps_closed() {
    let mut crq = CRQ::new();
    crq.fix_state();
    assert_eq!(crq.tail(), 0);
    assert_eq!(crq.fetch_and_add_head(), 0);
    assert_eq!(crq.fetch_and_add_head(), 1);
    assert_eq!(crq.head(), 2);
    crq.close();
    crq.fix_state();
    assert_eq!(crq.tail(), 2);
    assert!(crq.is_closed());
    crq.fix_state();
    assert_eq!(crq.tail(), 2);
    assert!(crq.is_closed());
}

#[test]
fn unsafe_cell_takes_a_value_only_while_head_is_not_past() {
    let mut crq = CRQ::new();
    // A producer claims position 0 and stores; a consumer that claimed
    // position 4 finds the cell holding the earlier value and marks it.
    assert_eq!(crq.fetch_and_add_tail().value(), 0);
    assert!(crq.try_enqueue_at(0, 50));
    assert!(matches!(crq.dequeue_at(4), SlotVisit::MarkedUnsafe));
    assert!(!crq.slot(0).is_safe());
    assert_eq!(crq.slot(0).value(), 50);
    assert!(matches!(crq.dequeue_at(0), SlotVisit::Taken(50)));
    assert_eq!(crq.slot(0).index(), 4);
    assert!(!crq.slot(0).is_safe());
    // head is 0: position 4 is not overtaken, the unsafe cell is usable.
    assert!(crq.try_enqueue_at(4, 51));
    assert!(crq.slot(0).is_safe());
    assert_eq!(crq.slot(0).index(), 4);
    assert_eq!(crq.slot(0).value(), 51);
}

#[test]
fn unsafe_cell_refuses_a_value_once_head_is_past() {
    let mut crq = CRQ::new();
    assert!(crq.try_enqueue_at(1, 60));
    assert!(matches!(crq.dequeue_at(5), SlotVisit::MarkedUnsafe));
    assert!(matches!(crq.dequeue_at(1), SlotVisit::Taken(60)));
    for _ in 0..6 {
        crq.fetch_and_add_head();
    }
    assert_eq!(crq.head(), 6);
    assert!(!crq.try_enqueue_at(5, 61));
    assert_eq!(crq.slot(1).value(), 0);
    assert_eq!(crq.slot(1).index(), 5);
}

#[test]
fn try_enqueue_at_refuses_full_and_later_cells() {
    let mut crq = CRQ::new();
    assert!(crq.try_enqueue_at(2, 70));
    assert!(!crq.try_enqueue_at(2, 71));
    assert!(!crq.try_enqueue_at(6, 71));
    assert_eq!(crq.slot(2).value(), 70);
    assert!(matches!(crq.dequeue_at(7), SlotVisit::Advanced));
    assert_eq!(crq.slot(3).index(), 11);
    assert!(!crq.try_enqueue_at(7, 72));
    assert!(matches!(crq.dequeue_at(3), SlotVisit::Passed));
    assert_eq!(crq.slot(3).index(), 11);
    assert!(crq.try_enqueue_at(11, 73));
    assert_eq!(crq.slot(3).value(), 73);
}

#[test]
fn link_next_links_once() {
    let mut crq = CRQ::new();
    assert!(crq.link_next(3));
    assert_eq!(crq.next(), 3);
    assert!(!crq.link_next(4));
    assert_eq!(crq.next(), 3);
}

#[test]
fn counter_limit_leaves_room_for_one_lap() {
    assert_eq!(COUNTER_LIMIT + RING_SIZE as u64, 0x7FFF_FFFF_FFFF_FFFF);
}

#[test]
fn head_and_tail_never_go_back() {
    let mut crq = CRQ::new();
    let mut head = crq.head();
    let mut tail = crq.tail();
    let mut closed = crq.is_closed();
    for round in 0..60u64 {
        match round % 5 {
            0 | 1 | 3 => {
                let _ = crq.enqueue(500 + round);
            }
            2 => {
                let _ = crq.dequeue();
            }
            _ => {
                crq.fix_state();
            }
        }
        assert!(crq.head() >= head);
        assert!(crq.tail() >= tail);
        assert!(!closed || crq.is_closed());
        head = crq.head();
        tail = crq.tail();
        closed = crq.is_closed();
    }
    assert!(closed);
}

#[test]
fn closed_ring_stays_closed_through_every_step() {
    let mut crq = CRQ::new();
    crq.close();
    crq.fetch_and_add_tail();
    assert!(crq.is_closed());
    crq.fetch_and_add_head();
    assert!(crq.is_closed());
    crq.fetch_and_add_head();
    crq.fetch_and_add_head();
    crq.fix_state();
    assert!(crq.is_closed());
    assert_eq!(crq.tail(), 3);
    let _ = crq.try_enqueue_at(3, 9);
    assert!(crq.is_closed());
    let _ = crq.dequeue_at(3);
    assert!(crq.is_closed());
}

#[test]
fn values_taken_out_are_those_put_in() {
    let mut crq = CRQ::new();
    let mut put_in: Vec<u64> = Vec::new();
    let mut taken_out: Vec<u64> = Vec::new();
    // Producers and consumers with claimed positions in no particular order.
    for (position, value) in [(2u64, 12u64), (0, 10), (2, 99), (5, 15), (1, 11), (4, 14)] {
        if crq.try_enqueue_at(position, value) {
            put_in.push(value);
        }
    }
    for position in [1u64, 0, 4, 2, 1, 3, 5, 6, 4] {
        if let SlotVisit::Taken(value) = crq.dequeue_at(position) {
            taken_out.push(value);
        }
    }
    for i in 0..RING_SIZE as u64 {
        let left = crq.slot(i).value();
        if left != 0 {
            taken_out.push(left);
        }
    }
    put_in.sort();
    taken_out.sort();
    assert_eq!(put_in, taken_out);
}

#[test]
fn accepts_reads_value_index_and_safety() {
    assert!(accepts(&Node::new(4, 0, true), 4, 9));
    assert!(accepts(&Node::new(4, 0, true), 8, 9));
    assert!(!accepts(&Node::new(4, 7, true), 4, 0));
    assert!(!accepts(&Node::new(8, 0, true), 4, 0));
    assert!(accepts(&Node::new(4, 0, false), 4, 4));
    assert!(accepts(&Node::new(4, 0, false), 4, 3));
    assert!(!accepts(&Node::new(4, 0, false), 4, 5));
}

#[test]
fn visit_plans_each_of_the_four_cases() {
    let (what, cell) = visit(&Node::new(6, 33, true), 6);
    assert!(matches!(what, SlotVisit::Taken(33)));
    assert_eq!((cell.index(), cell.value(), cell.is_safe()), (10, 0, true));

    let (what, cell) = visit(&Node::new(6, 33, false), 6);
    assert!(matches!(what, SlotVisit::Taken(33)));
    assert_eq!((cell.index(), cell.value(), cell.is_safe()), (10, 0, false));

    let (what, cell) = visit(&Node::new(2, 33, true), 6);
    assert!(matches!(what, SlotVisit::MarkedUnsafe));
    assert_eq!((cell.index(), cell.value(), cell.is_safe()), (2, 33, false));

    let (what, cell) = visit(&Node::new(2, 0, true), 6);
    assert!(matches!(what, SlotVisit::Advanced));
    assert_eq!((cell.index(), cell.value(), cell.is_safe()), (10, 0, true));

    let (what, cell) = visit(&Node::new(10, 44, true), 6);
    assert!(matches!(what, SlotVisit::Passed));
    assert_eq!((cell.index(), cell.value(), cell.is_safe()), (10, 44, true));
}

#[test]
fn closed_is_the_only_error() {
    let mut crq = CRQ::new();
    crq.close();
    assert_eq!(crq.enqueue(1), Err(Closed));
    assert_eq!(crq.tail(), 1);
    assert_eq!(crq.dequeue(), None);
    assert_eq!(crq.head(), 1);
    assert_eq!(crq.tail(), 1);
}

#[test]
fn dequeue_on_a_drained_closed_ring_skips_the_claimed_positions() {
    let mut crq = CRQ::new();
    for i in 0..RING_SIZE as u64 {
        assert!(crq.enqueue(10 + i).is_ok());
    }
    for _ in 0..3 {
        assert!(crq.enqueue(99).is_err());
    }
    assert_eq!(crq.tail(), RING_SIZE as u64 + 3);
    for i in 0..RING_SIZE as u64 {
        assert_eq!(crq.dequeue(), Some(10 + i));
    }
    assert_eq!(crq.head(), RING_SIZE as u64);
    assert_eq!(crq.dequeue(), None);
    assert_eq!(crq.head(), RING_SIZE as u64 + 3);
    assert_eq!(crq.tail(), RING_SIZE as u64 + 3);
    assert_eq!(crq.dequeue(), None);
    assert_eq!(crq.head(), RING_SIZE as u64 + 4);
    assert_eq!(crq.tail(), RING_SIZE as u64 + 4);
}

#[test]
fn enqueue_after_a_lone_consumer_claim_fills_the_claimed_position() {
    let mut crq = CRQ::new();
    assert_eq!(crq.fetch_and_add_head(), 0);
    assert_eq!(crq.enqueue(5), Ok(()));
    assert_eq!(crq.head(), 1);
    assert_eq!(crq.tail(), 1);
    assert_eq!(crq.slot(0).value(), 5);
    assert_eq!(crq.slot(0).index(), 0);
    assert!(matches!(crq.dequeue_at(0), SlotVisit::Taken(5)));
    assert_eq!(crq.slot(0).index(), RING_SIZE as u64);
}

#[test]
fn enqueue_passes_over_an_unsafe_cell_that_head_has_passed() {
    let mut crq = CRQ::new();
    assert!(crq.try_enqueue_at(1, 60));
    assert!(matches!(crq.dequeue_at(5), SlotVisit::MarkedUnsafe));
    assert!(matches!(crq.dequeue_at(1), SlotVisit::Taken(60)));
    for _ in 0..5 {
        crq.fetch_and_add_tail();
    }
    for _ in 0..6 {
        crq.fetch_and_add_head();
    }
    assert_eq!((crq.head(), crq.tail()), (6, 5));
    assert_eq!(crq.enqueue(61), Ok(()));
    assert_eq!(crq.tail(), 7);
    assert_eq!(crq.slot(5).value(), 0);
    assert!(!crq.slot(5).is_safe());
    assert_eq!(crq.slot(6).value(), 61);
    assert_eq!(crq.slot(6).index(), 6);
    assert!(crq.slot(6).is_safe());
    assert!(!crq.is_closed());
    assert_eq!(crq.dequeue(), Some(61));
    assert_eq!(crq.head(), 7);
    assert_eq!(crq.dequeue(), None);
    assert_eq!((crq.head(), crq.tail()), (8, 8));
}

#[test]
fn enqueue_closes_a_ring_found_full_at_the_claimed_position() {
    let mut crq = CRQ::new();
    for position in 0..RING_SIZE as u64 {
        assert_eq!(crq.fetch_and_add_tail().value(), position);
        assert!(crq.try_enqueue_at(position, 20 + position));
    }
    assert_eq!(crq.enqueue(30), Err(Closed));
    assert!(crq.is_closed());
    assert_eq!(crq.tail(), RING_SIZE as u64 + 1);
    for position in 0..RING_SIZE as u64 {
        assert_eq!(crq.slot(position).value(), 20 + position);
    }
}

#[test]
fn dequeue_passes_over_cells_of_other_positions() {
    let mut crq = CRQ::new();
    for _ in 0..3 {
        crq.fetch_and_add_tail();
    }
    assert!(crq.try_enqueue_at(2, 42));
    assert_eq!(crq.dequeue(), Some(42));
    assert_eq!(crq.head(), 3);
    assert_eq!(crq.tail(), 3);
    assert_eq!(crq.slot(0).index(), RING_SIZE as u64);
    assert_eq!(crq.slot(1).index(), 1 + RING_SIZE as u64);
    assert_eq!(crq.slot(2).index(), 2 + RING_SIZE as u64);
    assert_eq!(crq.slot(3).index(), 3);
}
