use meeting_recorder::nemotron::cache::{pick, Cache, Sizes};
use meeting_recorder::nemotron::frontend::{
    kept_outputs, next_block, sample_place, spectrum_frames, window_place, Block,
};
use meeting_recorder::nemotron::scores::{drop_weak_scores, key, strongest, NO_SCORE};
use meeting_recorder::nemotron::steps::{Cancelled, Steps};
use meeting_recorder::order::rank;

fn bits(scores: &[f32]) -> Vec<u32> {
    scores.iter().map(|score| score.to_bits()).collect()
}

const NONE: f32 = f32::NEG_INFINITY;

#[test]
fn keys_are_in_the_total_order_of_floats() {
    let scores = [
        -f32::NAN, NONE, f32::MIN, -1.0, -1e-40, -0.0, 0.0, 1e-40, 1.0, f32::MAX, f32::INFINITY,
        f32::NAN,
    ];
    for a in scores {
        for b in scores {
            assert_eq!(key(a.to_bits()).cmp(&key(b.to_bits())), a.total_cmp(&b));
        }
    }
    assert_eq!(NO_SCORE, NONE.to_bits());
}

#[test]
fn ranks_go_down_and_ties_keep_their_order() {
    assert_eq!(rank(&[3, 1, 3, 2, 5, 3]), [4, 0, 2, 5, 3, 1]);
    assert!(rank(&[]).is_empty());
    let many: Vec<i32> = (0..1000).map(|i| (i * 7919) % 101).collect();
    let mut expected: Vec<usize> = (0..1000).collect();
    expected.sort_by(|a, b| many[*b].cmp(&many[*a]));
    assert_eq!(rank(&many), expected);
}

#[test]
fn weak_scores_go_where_there_are_enough_strong_ones() {
    let scores = [1.0, -1.0, -2.0, 0.5, NONE, -0.0, 0.0, -3.0];
    let mut kept = bits(&scores);
    drop_weak_scores(&mut kept, 2, 4, 1);
    assert_eq!(kept, bits(&[1.0, NONE, NONE, 0.5, NONE, NONE, NONE, NONE]));
    let mut kept = bits(&scores);
    drop_weak_scores(&mut kept, 2, 4, 2);
    assert_eq!(kept, bits(&scores));
    let mut odd = bits(&[f32::NAN, -f32::NAN, f32::INFINITY, -1.0]);
    drop_weak_scores(&mut odd, 1, 4, 1);
    assert_eq!(odd, bits(&[f32::NAN, -f32::NAN, f32::INFINITY, NONE]));
}

#[test]
fn the_strongest_frames_of_a_speaker_are_found() {
    let scores = bits(&[0.1, 9.0, 0.3, 8.0, 0.3, 7.0, 0.2, 6.0]);
    assert_eq!(strongest(&scores, 2, 4, 0, 3), [1, 2, 3]);
    assert_eq!(strongest(&scores, 2, 4, 1, 2), [0, 1]);
    assert_eq!(strongest(&scores, 2, 4, 0, 9), [1, 2, 3, 0]);
    assert!(strongest(&scores, 2, 4, 0, 0).is_empty());
}

#[test]
fn a_compression_groups_by_speaker_and_keeps_silence() {
    // Two speakers, four frames, one slot of silence for each.
    let scores = bits(&[5.0, NONE, 1.0, 2.0, NONE, 4.0, 3.0, NONE]);
    assert_eq!(pick(&scores, 2, 4, 1, 5), [0, 3, 4, 2, 4]);
    // What is missing is silence, at the end.
    assert_eq!(pick(&scores, 2, 4, 1, 8), [0, 1, 3, 4, 1, 2, 4, 4]);
    let nothing = bits(&[NONE; 8]);
    assert_eq!(pick(&nothing, 2, 4, 0, 3), [4, 4, 4]);
}

fn sizes() -> Sizes {
    Sizes {
        hidden_size: 2,
        subsampling_factor: 2,
        num_speakers: 1,
        chunk_length: 2,
        chunk_right_context: 1,
        fifo_length: 2,
        speaker_cache_update_period: 1,
        speaker_cache_length: 3,
        silence_frames_per_speaker: 1,
    }
}

#[test]
fn the_oldest_frames_move_to_the_speaker_cache() {
    let mut cache = Cache::new(sizes(), vec![-1, -1], 0);
    assert!(!cache.update(&[10, 11, 20, 21], &[1, 2], 2));
    assert_eq!((cache.cached(), cache.waiting()), (0, 2));
    assert_eq!(cache.embeds(), [10, 11, 20, 21]);
    assert!(!cache.update(&[10, 11, 20, 21, 30, 31], &[3, 4, 5], 1));
    assert_eq!((cache.cached(), cache.waiting()), (1, 2));
    assert_eq!(cache.embeds(), [10, 11, 20, 21, 30, 31]);
    assert_eq!(cache.probabilities(), &vec![3]);
    // Until the cache is compressed, its probabilities are those of the last step.
    let input = [10, 11, 20, 21, 30, 31, 40, 41, 50, 51, 60, 61];
    assert!(cache.update(&input, &[6, 7, 8, 9, 10, 11], 3));
    assert_eq!((cache.cached(), cache.waiting()), (4, 2));
    assert_eq!(cache.probabilities(), &vec![6, 7, 8, 9]);
    cache.compress(&bits(&[1.0, 3.0, NONE, 2.0]));
    assert_eq!(cache.embeds(), [20, 21, 40, 41, -1, -1, 50, 51, 60, 61]);
    assert_eq!(cache.probabilities(), &vec![7, 9, 0]);
    // From then on they stay.
    let mut input = cache.embeds();
    input.extend([70, 71]);
    assert!(cache.update(&input, &[12, 13, 14, 15, 16, 17], 1));
    assert_eq!(cache.probabilities(), &vec![7, 9, 0, 15]);
}

#[test]
fn at_least_a_period_moves_at_a_time() {
    let sizes = Sizes { speaker_cache_update_period: 3, fifo_length: 3, ..sizes() };
    let mut cache = Cache::new(sizes, vec![0, 0], 0);
    assert!(!cache.update(&[1; 8], &[1; 4], 4));
    assert_eq!((cache.cached(), cache.waiting()), (3, 1));
    let sizes = Sizes { speaker_cache_update_period: 9, fifo_length: 3, ..sizes };
    let mut cache = Cache::new(sizes, vec![0, 0], 0);
    assert!(cache.update(&[1; 8], &[1; 4], 4));
    assert_eq!((cache.cached(), cache.waiting()), (4, 0));
}

#[test]
fn steps_go_over_every_frame_once() {
    let embeds: Vec<i32> = (0..10).collect();
    let mut steps = Steps::new(sizes(), embeds, vec![-1, -1], 0);
    let mut inputs = vec![];
    let mut ends = vec![];
    let mut told = vec![];
    while let Some(input) = steps.input() {
        let rows = input.len() / 2;
        told.push(steps.told_frames(&input));
        let logits: Vec<i32> = (0..rows * 2).map(|i| input[i / 2 * 2] * 10 + (i % 2) as i32).collect();
        let probs: Vec<i32> = vec![7; rows];
        if steps.take(&input, &logits, &probs) {
            let scores = bits(&vec![1.0; steps.cached()]);
            assert_eq!(steps.probabilities().len(), steps.cached());
            steps.compress(&scores);
            assert_eq!(steps.cached(), 3);
        }
        inputs.push(input);
        ends.push(steps.progress());
    }
    assert_eq!(ends, [(2, 5), (4, 5), (5, 5)]);
    assert_eq!(told, [2, 4, 5]);
    assert_eq!(inputs[0], [0, 1, 2, 3, 4, 5]);
    assert_eq!(inputs[1], [0, 1, 2, 3, 4, 5, 6, 7, 8, 9]);
    assert_eq!(inputs[2], [0, 1, 2, 3, 4, 5, 6, 7, 8, 9]);
    assert_eq!(steps.finish(), [0, 1, 20, 21, 40, 41, 60, 61, 80, 81]);
}

#[test]
fn a_recording_without_frames_has_no_steps() {
    let steps: Steps<u8> = Steps::new(sizes(), vec![1], vec![0, 0], 0);
    assert!(steps.input().is_none());
    assert!(steps.finish().is_empty());
}

#[test]
fn frames_are_centred_on_their_samples() {
    assert_eq!(spectrum_frames(0), 1);
    assert_eq!(spectrum_frames(319), 2);
    assert_eq!(sample_place(1000, 0, 255), None);
    assert_eq!(sample_place(1000, 0, 256), Some(0));
    assert_eq!(sample_place(1000, 2, 0), Some(64));
    assert_eq!(sample_place(1000, 6, 295), Some(999));
    assert_eq!(sample_place(1000, 6, 296), None);
    assert_eq!(window_place(55), None);
    assert_eq!(window_place(56), Some(0));
    assert_eq!(window_place(455), Some(399));
    assert_eq!(window_place(456), None);
}

#[test]
fn blocks_fill_whole_stacks() {
    assert_eq!(next_block(0, 0), Some(Block { start: 0, end: 1, rows: 8, valid: 0 }));
    assert_eq!(next_block(0, 1), None);
    let samples = 160 * 32_775 + 5;
    let first = Block { start: 0, end: 32_768, rows: 32_768, valid: 32_768 };
    assert_eq!(next_block(samples, 0), Some(first));
    let second = Block { start: 32_768, end: 32_776, rows: 8, valid: 7 };
    assert_eq!(next_block(samples, 32_768), Some(second));
    assert_eq!(next_block(samples, 32_776), None);
}

#[test]
fn outputs_beyond_the_recording_are_dropped() {
    assert_eq!(kept_outputs(160, 8, 100), 16);
    assert_eq!(kept_outputs(160, 8, 10), 10);
    assert_eq!(kept_outputs(usize::MAX, usize::MAX, 10), 10);
}

#[test]
fn steps_are_cancelled_while_there_is_one_to_take() {
    let steps: Steps<i32> = Steps::new(sizes(), (0..10).collect(), vec![-1, -1], 0);
    assert_eq!(steps.next(true), Err(Cancelled));
    assert_eq!(steps.next(false), Ok(Some(vec![0, 1, 2, 3, 4, 5])));
    let none: Steps<i32> = Steps::new(sizes(), vec![1], vec![0, 0], 0);
    assert_eq!(none.next(true), Ok(None));
    assert_eq!(none.next(false), Ok(None));
}
