use vm_rust::filmloop_probe::{
    depth, inner_layout, last_advanced, layout, note_advance, note_reset, note_tick, pop_depth, push_depth,
    set_inner_layout, set_layout, set_stage_rect, set_trace, set_tracing, stats, traces, tracing_enabled,
    FilmLoopProbe,
};

#[test]
fn counters_count() {
    let mut p = FilmLoopProbe::new();
    note_tick(&mut p, 3);
    note_tick(&mut p, 2);
    note_advance(&mut p, 1, 17, 4, 5);
    note_reset(&mut p);
    assert_eq!(stats(&p), (2, 2, 1, 1));
    assert_eq!(last_advanced(&p), (1, 17, 4, 5));
}

#[test]
fn layout_reads_the_stage_rect_first() {
    let mut p = FilmLoopProbe::new();
    set_stage_rect(&mut p, (-5, 10, 300, 2000000));
    set_layout(&mut p, "child 1 at 3,4".to_string());
    assert_eq!(layout(&p), "stage(-5,10,300,2000000) child 1 at 3,4");
    set_inner_layout(&mut p, "inner".to_string());
    assert_eq!(inner_layout(&p), "inner");
}

#[test]
fn depth_never_goes_below_zero() {
    let mut p = FilmLoopProbe::new();
    pop_depth(&mut p);
    assert_eq!(depth(&p), 0);
    push_depth(&mut p);
    push_depth(&mut p);
    pop_depth(&mut p);
    assert_eq!(depth(&p), 1);
}

#[test]
fn one_trace_per_depth_and_member_in_order() {
    let mut p = FilmLoopProbe::new();
    set_trace(&mut p, 1, 20, "inner b".to_string());
    set_trace(&mut p, 0, 7, "outer".to_string());
    set_trace(&mut p, 1, -3, "inner a".to_string());
    set_trace(&mut p, 0, 7, "outer again".to_string());
    assert_eq!(traces(&p), "[d0 m7] outer again\n[d1 m-3] inner a\n[d1 m20] inner b");
}

#[test]
fn no_traces_read_as_nothing() {
    let p = FilmLoopProbe::new();
    assert_eq!(traces(&p), "");
    assert_eq!(layout(&p), "stage(0,0,0,0) ");
}

#[test]
fn tracing_is_off_until_turned_on() {
    let mut p = FilmLoopProbe::new();
    assert!(!tracing_enabled(&p));
    set_tracing(&mut p, true);
    assert!(tracing_enabled(&p));
}
