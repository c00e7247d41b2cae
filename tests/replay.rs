use std::collections::VecDeque;

use rand::SeedableRng;
use takzero::buffer::ReplayBuffer;
use takzero::replay::{record_action, salvage, Replay};

fn lens(windows: &[Replay<u32, u8>]) -> Vec<usize> {
    windows.iter().map(|w| w.len()).collect()
}

#[test]
fn windows_never_exceed_step() {
    let step = 3;
    let mut windows: Vec<Replay<u32, u8>> = Vec::new();
    for ply in 0..6u8 {
        record_action(&mut windows, ply as u32, ply, step);
        assert!(windows.iter().all(|w| w.len() <= step));
    }
    assert_eq!(lens(&windows), vec![3, 3, 3, 3, 2, 1]);
    assert_eq!(windows[0].actions, vec![0, 1, 2]);
    assert_eq!(windows[2].actions, vec![2, 3, 4]);
    assert_eq!(windows[4].actions, vec![4, 5]);
    assert_eq!(windows[5].env, 5);
    assert_eq!(windows[5].actions, vec![5]);
}

#[test]
fn salvage_keeps_complete_windows() {
    let step = 3;
    let mut windows: Vec<Replay<u32, u8>> = Vec::new();
    for ply in 0..5u8 {
        record_action(&mut windows, ply as u32, ply, step);
    }
    let kept = salvage(&mut windows, step);
    assert!(windows.is_empty());
    assert_eq!(lens(&kept), vec![3, 3]);
    assert_eq!(kept[0].env, 0);
    assert_eq!(kept[1].env, 1);
}

#[test]
fn salvage_of_short_game_keeps_nothing() {
    let mut windows: Vec<Replay<u32, u8>> = Vec::new();
    record_action(&mut windows, 0, 9, 4);
    record_action(&mut windows, 1, 8, 4);
    assert!(salvage(&mut windows, 4).is_empty());
    assert!(windows.is_empty());
}

#[test]
fn buffer_appends_newest_first_and_drops_oldest() {
    let mut buffer: ReplayBuffer<u32> = ReplayBuffer::new(5);
    let mut staged: VecDeque<u32> = VecDeque::from(vec![3, 2, 1]);
    buffer.append(&mut staged);
    assert!(staged.is_empty());
    assert_eq!(buffer.len(), 3);
    let mut staged: VecDeque<u32> = VecDeque::from(vec![6, 5, 4]);
    buffer.append(&mut staged);
    assert_eq!(buffer.len(), 5);
    assert_eq!(buffer.maximum(), 5);
    let held: Vec<u32> = (0..buffer.len()).map(|i| *buffer.get(i)).collect();
    assert_eq!(held, vec![6, 5, 4, 3, 2]);
}

#[test]
fn buffer_bound_holds_for_any_appends() {
    let mut buffer: ReplayBuffer<usize> = ReplayBuffer::new(7);
    for n in 0..20usize {
        let mut staged: VecDeque<usize> = (0..n).collect();
        buffer.append(&mut staged);
        assert!(buffer.len() <= 7);
    }
    let mut empty: ReplayBuffer<usize> = ReplayBuffer::new(0);
    empty.append(&mut VecDeque::from(vec![1, 2]));
    assert_eq!(empty.len(), 0);
}

#[test]
fn buffer_sample_is_an_entry() {
    let mut buffer: ReplayBuffer<u32> = ReplayBuffer::new(10);
    buffer.append(&mut VecDeque::from(vec![10, 20, 30]));
    let mut rng = rand::rngs::StdRng::seed_from_u64(7);
    for _ in 0..50 {
        let x = *buffer.sample(&mut rng);
        assert!(x == 10 || x == 20 || x == 30);
    }
}
