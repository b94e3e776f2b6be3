use sdial::agg::enumerate;
use sdial::lock::Lock;
use sdial::lock::next;
use sdial::lock::prior;
use sdial::moves::MoveSeq;
use sdial::report::best_span;
use sdial::report::sort_entries;
use sdial::wheel::Wheel;

fn replay_fresh(dirs: &[u8]) -> Lock {
    let mut lock = Lock::new();
    for &d in dirs {
        lock.slide(d);
    }
    lock
}

#[test]
fn wheel_starts_neutral() {
    let w = Wheel::new(0, 0);
    assert_eq!(w.pos(), 0);
    assert_eq!(w.shift(), 0);
    assert_eq!(w.encoded(), 1);
}

#[test]
fn wheel_advance_catches_up_lean_without_step() {
    let mut w = Wheel::new(0, 0);
    w.advance(1);
    assert_eq!(w.pos(), 0);
    assert_eq!(w.shift(), 1);
}

#[test]
fn wheel_advance_steps_when_lean_not_exceeded() {
    let mut w = Wheel::new(0, 1);
    w.advance(1);
    assert_eq!(w.pos(), 1);
    assert_eq!(w.shift(), 1);
    w.advance(-1);
    assert_eq!(w.pos(), 2);
    assert_eq!(w.shift(), -1);
}

#[test]
fn wheel_advance_wraps_position() {
    let mut w = Wheel::new(4, 0);
    w.advance(0);
    assert_eq!(w.pos(), 0);
    assert_eq!(w.shift(), 0);
}

#[test]
fn wheel_encoding_stays_in_range() {
    for pos in 0..5u8 {
        for shift in -1..=1i8 {
            let mut w = Wheel::new(pos, shift);
            assert!(w.encoded() < 15);
            for target in -1..=1i8 {
                w.advance(target);
                assert!(w.encoded() < 15);
            }
        }
    }
}

#[test]
fn wheel_set_and_reset() {
    let mut w = Wheel::new(3, 1);
    w.set(2, -1);
    assert_eq!(w.pos(), 2);
    assert_eq!(w.shift(), -1);
    w.reset();
    assert_eq!(w.encoded(), 1);
}

#[test]
fn prior_and_next_are_cyclic() {
    assert_eq!(prior(0), 3);
    assert_eq!(prior(1), 0);
    assert_eq!(prior(2), 1);
    assert_eq!(prior(3), 2);
    assert_eq!(next(0), 1);
    assert_eq!(next(1), 2);
    assert_eq!(next(2), 3);
    assert_eq!(next(3), 0);
}

#[test]
fn slide_up_from_reset() {
    let mut lock = Lock::new();
    lock.slide(0);
    // Wheel 3 (prior) steps to position 1, leaning left; wheel 0 steps to
    // position 1, neutral; wheel 1 (next) only catches up its lean.
    assert_eq!(lock.wheel(0).pos(), 1);
    assert_eq!(lock.wheel(0).shift(), 0);
    assert_eq!(lock.wheel(1).pos(), 0);
    assert_eq!(lock.wheel(1).shift(), 1);
    assert_eq!(lock.wheel(2).pos(), 0);
    assert_eq!(lock.wheel(2).shift(), 0);
    assert_eq!(lock.wheel(3).pos(), 1);
    assert_eq!(lock.wheel(3).shift(), -1);
    assert_eq!(lock.index(), 4 * 3375 + 2 * 225 + 1 * 15 + 3);
}

#[test]
fn lock_reset_restores_neutral_state() {
    let mut lock = Lock::new();
    lock.slide(2);
    lock.slide(1);
    lock.reset();
    assert_eq!(lock.index(), Lock::new().index());
}

#[test]
fn lock_index_roundtrips() {
    let lock = replay_fresh(&[0, 3, 2]);
    let k = lock.index();
    let back = Lock::from_index(k);
    assert_eq!(back.index(), k);
    for i in 0..4 {
        assert_eq!(back.wheel(i).encoded(), lock.wheel(i).encoded());
    }
}

#[test]
fn replay_is_deterministic() {
    let a = replay_fresh(&[0, 1, 2, 3, 1, 1, 0]);
    let b = replay_fresh(&[0, 1, 2, 3, 1, 1, 0]);
    assert_eq!(a.index(), b.index());
    for i in 0..4 {
        assert_eq!(a.wheel(i).encoded(), b.wheel(i).encoded());
    }
}

#[test]
fn wheel_render_marks_position_and_lean() {
    assert_eq!(Wheel::new(2, -1).render(), "2<");
    assert_eq!(Wheel::new(0, 0).render(), "0|");
    assert_eq!(Wheel::new(4, 1).render(), "4>");
}

#[test]
fn lock_render_lists_four_wheels() {
    let mut lock = Lock::new();
    lock.slide(0);
    assert_eq!(lock.render(), "(1|,0>,0|,1<)");
    assert_eq!(Lock::new().render(), "(0|,0|,0|,0|)");
}

#[test]
fn move_seq_render_names_directions() {
    assert_eq!(MoveSeq(vec![0, 1, 2, 3]).render(), "URDL");
    assert_eq!(MoveSeq(vec![]).render(), "");
    assert_eq!(MoveSeq(vec![2, 2]).render(), "DD");
}

#[test]
fn single_moves_reach_four_distinct_states() {
    let table = enumerate(1);
    assert_eq!(table.total_recorded(), 4);
    assert_eq!(table.distinct_states(), 4);
    assert_eq!(table.duplicates(), 0);
    let entries = table.into_entries();
    assert_eq!(entries.len(), 4);
    for (_, target) in &entries {
        assert_eq!(target.count, 1);
        assert_eq!(target.seq.0.len(), 1);
        assert_eq!(target.all.len(), 1);
        assert_eq!(target.all[0].0, target.seq.0);
    }
}

#[test]
fn two_moves_record_twenty_pairs() {
    let table = enumerate(2);
    let total = table.total_recorded();
    let distinct = table.distinct_states() as u64;
    let dups = table.duplicates();
    assert_eq!(total, 4 + 16);
    assert_eq!(dups, total - distinct);
    assert_eq!(distinct + dups, total);
}

#[test]
fn entry_counts_match_their_sequence_lists() {
    let table = enumerate(3);
    assert_eq!(table.total_recorded(), 4 + 16 + 64);
    let entries = table.into_entries();
    let mut total = 0u64;
    for (lock, target) in &entries {
        assert_eq!(target.count as usize, target.all.len());
        assert!(target.count >= 1);
        assert_eq!(target.all[0].0, target.seq.0);
        total += target.count;
        // Every sequence of the entry replays to the entry's state.
        for mv in &target.all {
            assert_eq!(replay_fresh(&mv.0).index(), lock.index());
        }
        // Enumeration order: shorter sequences were recorded first.
        for pair in target.all.windows(2) {
            assert!(pair[0].0.len() <= pair[1].0.len());
        }
    }
    assert_eq!(total, 84);
}

#[test]
fn report_sorts_by_count_then_length() {
    let entries = sort_entries(enumerate(2).into_entries());
    for pair in entries.windows(2) {
        let (a, b) = (&pair[0].1, &pair[1].1);
        assert!(a.count < b.count || (a.count == b.count && a.seq.0.len() <= b.seq.0.len()));
    }
}

#[test]
fn best_entries_tie_the_minimum_count() {
    let entries = sort_entries(enumerate(2).into_entries());
    assert!(!entries.is_empty());
    let span = best_span(&entries);
    assert!(span >= 1);
    let best = entries[0].1.count;
    for (_, target) in &entries {
        assert!(target.count >= best);
    }
    for e in entries.iter().take(span) {
        assert_eq!(e.1.count, best);
    }
    if span < entries.len() {
        assert_ne!(entries[span].1.count, best);
    }
}

#[test]
fn report_is_reproducible() {
    let first = sort_entries(enumerate(3).into_entries());
    let second = sort_entries(enumerate(3).into_entries());
    assert_eq!(first.len(), second.len());
    for (a, b) in first.iter().zip(second.iter()) {
        assert_eq!(a.0.index(), b.0.index());
        assert_eq!(a.1.count, b.1.count);
        assert_eq!(a.1.seq.0, b.1.seq.0);
        assert_eq!(a.1.all.len(), b.1.all.len());
        for (x, y) in a.1.all.iter().zip(b.1.all.iter()) {
            assert_eq!(x.0, y.0);
        }
    }
}

#[test]
fn colliding_sequences_share_one_entry() {
    // Find two distinct sequences of length at most 2 that reach the same
    // state, then check the aggregation filed them together.
    let table = enumerate(2);
    let entries = table.into_entries();
    let dup = entries.iter().find(|(_, t)| t.count > 1);
    if let Some((lock, target)) = dup {
        for mv in &target.all {
            assert_eq!(replay_fresh(&mv.0).index(), lock.index());
        }
        assert!(target.all.len() >= 2);
    }
}

#[test]
fn empty_search_yields_empty_report() {
    let table = enumerate(0);
    assert_eq!(table.total_recorded(), 0);
    assert_eq!(table.distinct_states(), 0);
    assert_eq!(table.duplicates(), 0);
    let entries = sort_entries(table.into_entries());
    assert!(entries.is_empty());
    assert_eq!(best_span(&entries), 0);
}
