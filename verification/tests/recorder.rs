use koru_lambda_core::{DistinctionEngine, SynthesisRecorder};

#[test]
fn fresh_recorder_log_is_empty() {
    let r = SynthesisRecorder::new();
    assert!(r.log().is_empty());
}

#[test]
fn synthesize_records_novel_child() {
    let mut e = DistinctionEngine::new();
    let (d0, d1) = (e.d0(), e.d1());
    let mut r = SynthesisRecorder::new();
    let c = r.synthesize(&mut e, d0, d1);
    assert_eq!(r.log(), &[c]);
}

#[test]
fn repeated_synthesize_dedups() {
    let mut e = DistinctionEngine::new();
    let (d0, d1) = (e.d0(), e.d1());
    let mut r = SynthesisRecorder::new();
    let c1 = r.synthesize(&mut e, d0, d1);
    let c2 = r.synthesize(&mut e, d0, d1);
    let c3 = r.synthesize(&mut e, d1, d0);
    assert_eq!(c1, c2);
    assert_eq!(c1, c3);
    assert_eq!(r.log(), &[c1], "log should contain exactly one entry");
}

#[test]
fn distinct_syntheses_recorded_in_order() {
    let mut e = DistinctionEngine::new();
    let (d0, d1) = (e.d0(), e.d1());
    let mut r = SynthesisRecorder::new();
    let a = r.synthesize(&mut e, d0, d1);
    let b = r.synthesize(&mut e, a, d0);
    let c = r.synthesize(&mut e, a, d1);
    assert_eq!(r.log(), &[a, b, c], "order must reflect call sequence");
}

#[test]
fn irreflexive_synthesis_does_not_record() {
    let mut e = DistinctionEngine::new();
    let (d0, d1) = (e.d0(), e.d1());
    let mut r = SynthesisRecorder::new();
    let a = r.synthesize(&mut e, d0, d1);
    let a_again = r.synthesize(&mut e, a, a);
    assert_eq!(a, a_again);
    assert_eq!(r.log(), &[a], "irreflexive call should not add to log");
}

#[test]
fn recorder_passes_through_to_engine() {
    let mut e = DistinctionEngine::new();
    let (d0, d1) = (e.d0(), e.d1());
    let count_before = e.distinction_count();
    let mut r = SynthesisRecorder::new();
    let _ = r.synthesize(&mut e, d0, d1);
    assert!(e.distinction_count() > count_before);
}

#[test]
fn log_entries_appear_in_engine_parents_of() {
    let mut e = DistinctionEngine::new();
    let (d0, d1) = (e.d0(), e.d1());
    let mut r = SynthesisRecorder::new();
    let a = r.synthesize(&mut e, d0, d1);
    let b = r.synthesize(&mut e, a, d0);
    let c = r.synthesize(&mut e, b, d1);
    for entry in r.log() {
        assert!(e.parents_of(*entry).is_some(), "log entry {entry:?} missing from engine.parents_of");
    }
    assert_eq!(r.log().len(), e.distinction_count() - 2);
    let _ = [a, b, c];
}

#[test]
fn recorder_logs_a_primordial_once_when_it_comes_back() {
    let mut e = DistinctionEngine::new();
    let (d0, d1) = (e.d0(), e.d1());
    let mut r = SynthesisRecorder::default();
    let first = r.synthesize(&mut e, d0, d0);
    let again = r.synthesize(&mut e, d0, d0);
    assert_eq!(first, d0);
    assert_eq!(again, d0);
    assert_eq!(r.log(), &[d0]);
}

#[test]
fn recorder_dedups_across_many_interleaved_children() {
    let mut e = DistinctionEngine::new();
    let (d0, d1) = (e.d0(), e.d1());
    let mut r = SynthesisRecorder::new();
    let mut seen = Vec::new();
    let mut prev = d0;
    let mut cur = d1;
    for _ in 0..50 {
        let next = r.synthesize(&mut e, cur, prev);
        let again = r.synthesize(&mut e, prev, cur);
        assert_eq!(next, again);
        seen.push(next);
        prev = cur;
        cur = next;
    }
    assert_eq!(r.log(), seen.as_slice());
}

#[test]
fn log_is_first_occurrences_of_calls() {
    let mut e = DistinctionEngine::new();
    let mut r = SynthesisRecorder::new();
    let (d0, d1) = (e.d0(), e.d1());
    let mut calls = Vec::new();
    let c1 = r.synthesize(&mut e, d0, d1);
    calls.push(c1);
    let c2 = r.synthesize(&mut e, c1, d0);
    calls.push(c2);
    calls.push(r.synthesize(&mut e, d1, d0));
    let c3 = r.synthesize(&mut e, c2, c1);
    calls.push(c3);
    calls.push(r.synthesize(&mut e, c1, d0));
    let mut expected = Vec::new();
    for c in &calls {
        if !expected.contains(c) {
            expected.push(*c);
        }
    }
    assert_eq!(r.log(), expected.as_slice());
    assert_eq!(r.log(), &[c1, c2, c3]);
    assert!(r.log().len() <= calls.len());
}
