//! Counters for diagnosing why a film loop is not animating: ticks of the
//! frame loop, advances and resets of film loops, the last layout the
//! renderer computed, and one trace line per nesting depth and member. The
//! host reads them when debugging.
use vstd::prelude::*;
use crate::text::{decimal, decimal_text, join_with, split, law_split_join_inverse};
use std::collections::BTreeMap;
use vstd::laws_cmp::obeys_cmp;
use vstd::std_specs::cmp::OrdSpec;
use vstd::std_specs::iter::IteratorSpec;
use vstd::std_specs::btree::increasing_seq;

verus! {

pub struct FilmLoopProbe {
    pub ticks: u64,
    pub last_active: u32,
    pub advances: u64,
    pub resets: u64,
    pub last_adv: (i32, i32, u32, u32),
    pub layout: String,
    pub stage_rect: (i32, i32, i32, i32),
    pub inner_layout: String,
    /// One line per (nesting depth, member).
    pub traces: BTreeMap<(u32, i32), String>,
    pub depth: u32,
    /// The layout trace costs a formatted line per film loop child per
    /// frame, so it is off until the host turns it on.
    pub tracing: bool,
}

/// Trace key order: by depth, then by member.
pub open spec fn key_lt(a: (u32, i32), b: (u32, i32)) -> bool {
    a.0 < b.0 || (a.0 == b.0 && a.1 < b.1)
}

/// `s` lists the entries of `m` in increasing key order, each once.
pub open spec fn in_key_order(s: Seq<((u32, i32), String)>, m: Map<(u32, i32), String>) -> bool {
    &&& forall|i: int, j: int| 0 <= i < j < s.len() ==> key_lt(#[trigger] s[i].0, #[trigger] s[j].0)
    &&& forall|i: int| 0 <= i < s.len() ==> #[trigger] m.contains_key(s[i].0) && m[s[i].0] == s[i].1
    &&& forall|k: (u32, i32)| #[trigger] m.contains_key(k) ==> exists|i: int| 0 <= i < s.len() && s[i].0 == k
}

/// The entries of `m` in key order (see `law_key_order_unique`: there is
/// at most one such listing).
pub open spec fn key_order(m: Map<(u32, i32), String>) -> Seq<((u32, i32), String)> {
    choose|s: Seq<((u32, i32), String)>| in_key_order(s, m)
}

/// `lines` joined with `sep` between them.
pub open spec fn join(lines: Seq<Seq<char>>, sep: Seq<char>) -> Seq<char>
    decreases lines.len(),
{
    if lines.len() == 0 {
        Seq::empty()
    } else if lines.len() == 1 {
        lines[0]
    } else {
        join(lines.drop_last(), sep) + sep + lines.last()
    }
}

/// How one trace reads: `[d<depth> m<member>] <line>`.
pub open spec fn trace_text(t: ((u32, i32), String)) -> Seq<char> {
    "[d"@ + decimal(t.0.0 as int) + " m"@ + decimal(t.0.1 as int) + "] "@ + t.1@
}

/// How the layout reads: `stage(<left>,<top>,<right>,<bottom>) <layout>`.
pub open spec fn layout_text(rect: (i32, i32, i32, i32), layout: Seq<char>) -> Seq<char> {
    "stage("@ + decimal(rect.0 as int) + ","@ + decimal(rect.1 as int) + ","@ + decimal(rect.2 as int) + ","@
        + decimal(rect.3 as int) + ") "@ + layout
}

impl FilmLoopProbe {
    pub fn new() -> (r: FilmLoopProbe)
        ensures
            r.ticks == 0,
            r.last_active == 0,
            r.advances == 0,
            r.resets == 0,
            r.last_adv == (0i32, 0i32, 0u32, 0u32),
            r.layout@ == Seq::<char>::empty(),
            r.stage_rect == (0i32, 0i32, 0i32, 0i32),
            r.inner_layout@ == Seq::<char>::empty(),
            r.traces@ == Map::<(u32, i32), String>::empty(),
            r.depth == 0,
            !r.tracing,
    {
        FilmLoopProbe {
            ticks: 0,
            last_active: 0,
            advances: 0,
            resets: 0,
            last_adv: (0, 0, 0, 0),
            layout: String::new(),
            stage_rect: (0, 0, 0, 0),
            inner_layout: String::new(),
            traces: BTreeMap::new(),
            depth: 0,
            tracing: false,
        }
    }
}

/// One tick of the frame loop, with the number of active film loops.
pub fn note_tick(probe: &mut FilmLoopProbe, active: u32)
    requires
        old(probe).ticks < u64::MAX,
    ensures
        *final(probe) == (FilmLoopProbe { ticks: (old(probe).ticks + 1) as u64, last_active: active, ..*old(probe) }),
{
    probe.ticks = probe.ticks + 1;
    probe.last_active = active;
}

/// A film loop advanced from frame `from` to frame `to`.
pub fn note_advance(probe: &mut FilmLoopProbe, cast_lib: i32, member_num: i32, from: u32, to: u32)
    requires
        old(probe).advances < u64::MAX,
    ensures
        *final(probe) == (FilmLoopProbe {
            advances: (old(probe).advances + 1) as u64,
            last_adv: (cast_lib, member_num, from, to),
            ..*old(probe)
        }),
{
    probe.advances = probe.advances + 1;
    probe.last_adv = (cast_lib, member_num, from, to);
}

pub fn last_advanced(probe: &FilmLoopProbe) -> (r: (i32, i32, u32, u32))
    ensures
        r == probe.last_adv,
{
    probe.last_adv
}

/// A film loop went back to its first frame.
pub fn note_reset(probe: &mut FilmLoopProbe)
    requires
        old(probe).resets < u64::MAX,
    ensures
        *final(probe) == (FilmLoopProbe { resets: (old(probe).resets + 1) as u64, ..*old(probe) }),
{
    probe.resets = probe.resets + 1;
}

/// Ticks, active film loops at the last tick, advances and resets.
pub fn stats(probe: &FilmLoopProbe) -> (r: (u64, u32, u64, u64))
    ensures
        r == (probe.ticks, probe.last_active, probe.advances, probe.resets),
{
    (probe.ticks, probe.last_active, probe.advances, probe.resets)
}

/// What the renderer computed for a film loop's children this frame.
pub fn set_layout(probe: &mut FilmLoopProbe, s: String)
    ensures
        *final(probe) == (FilmLoopProbe { layout: s, ..*old(probe) }),
{
    probe.layout = s;
}

/// The last layout, after where the film loop is drawn on the stage.
pub fn layout(probe: &FilmLoopProbe) -> (r: String)
    ensures
        r@ == layout_text(probe.stage_rect, probe.layout@),
{
    let (l, t, r, b) = probe.stage_rect;
    let mut out = String::from_str("stage(");
    out.append(decimal_text(l as i64).as_str());
    out.append(",");
    out.append(decimal_text(t as i64).as_str());
    out.append(",");
    out.append(decimal_text(r as i64).as_str());
    out.append(",");
    out.append(decimal_text(b as i64).as_str());
    out.append(") ");
    out.append(probe.layout.as_str());
    out
}

/// Where the film loop's offscreen is drawn on the stage.
pub fn set_stage_rect(probe: &mut FilmLoopProbe, rect: (i32, i32, i32, i32))
    ensures
        *final(probe) == (FilmLoopProbe { stage_rect: rect, ..*old(probe) }),
{
    probe.stage_rect = rect;
}

/// The current nesting depth of film loop rendering.
pub fn depth(probe: &FilmLoopProbe) -> (r: u32)
    ensures
        r == probe.depth,
{
    probe.depth
}

/// Enters a nested film loop.
pub fn push_depth(probe: &mut FilmLoopProbe)
    requires
        old(probe).depth < u32::MAX,
    ensures
        *final(probe) == (FilmLoopProbe { depth: (old(probe).depth + 1) as u32, ..*old(probe) }),
{
    probe.depth = probe.depth + 1;
}

/// Leaves a nested film loop; the depth never goes below 0.
pub fn pop_depth(probe: &mut FilmLoopProbe)
    ensures
        *final(probe) == (FilmLoopProbe {
            depth: if old(probe).depth == 0 { 0 } else { (old(probe).depth - 1) as u32 },
            ..*old(probe)
        }),
{
    probe.depth = probe.depth.saturating_sub(1);
}

pub fn set_inner_layout(probe: &mut FilmLoopProbe, s: String)
    ensures
        *final(probe) == (FilmLoopProbe { inner_layout: s, ..*old(probe) }),
{
    probe.inner_layout = s;
}

pub fn inner_layout(probe: &FilmLoopProbe) -> (r: String)
    ensures
        r@ == probe.inner_layout@,
{
    probe.inner_layout.clone()
}

pub fn set_tracing(probe: &mut FilmLoopProbe, on: bool)
    ensures
        *final(probe) == (FilmLoopProbe { tracing: on, ..*old(probe) }),
{
    probe.tracing = on;
}

pub fn tracing_enabled(probe: &FilmLoopProbe) -> (r: bool)
    ensures
        r == probe.tracing,
{
    probe.tracing
}

/// Stores `line` as the trace of `member_num` at nesting `depth`. Traces
/// are kept one per (depth, member), so every level of a nest can be read
/// at once instead of the deepest overwriting the rest.
pub fn set_trace(probe: &mut FilmLoopProbe, depth: u32, member_num: i32, line: String)
    ensures
        final(probe).traces@ == old(probe).traces@.insert((depth, member_num), line),
        *final(probe) == (FilmLoopProbe { traces: final(probe).traces, ..*old(probe) }),
{
    proof {
        lemma_trace_keys_ordered((depth, member_num), (depth, member_num));
    }
    probe.traces.insert((depth, member_num), line);
}

/// The trace keys obey the ordering laws, and the map orders them by depth,
/// then by member.
pub proof fn lemma_trace_keys_ordered(a: (u32, i32), b: (u32, i32))
    ensures
        obeys_cmp::<(u32, i32)>(),
        (a.cmp_spec(&b) is Less) <==> key_lt(a, b),
{
    broadcast use vstd::laws_cmp::group_laws_cmp;

}

/// What the map's iterator hands out is its entries in key order.
proof fn lemma_iteration_in_key_order(
    m: Map<(u32, i32), String>,
    v: Seq<(&(u32, i32), &String)>,
    s: Seq<((u32, i32), String)>,
)
    requires
        s == v.map_values(|kv: (&(u32, i32), &String)| (*kv.0, *kv.1)),
        increasing_seq(v.map_values(|kv: (&(u32, i32), &String)| *kv.0)),
        forall|i: int| 0 <= i < v.len() ==> m.contains_key(*v[i].0) && m[*v[i].0] == *v[i].1,
        forall|k: (u32, i32)| #[trigger] m.contains_key(k) ==> v.contains((&k, &m[k])),
    ensures
        in_key_order(s, m),
        in_key_order(key_order(m), m),
{
    broadcast use vstd::std_specs::btree::group_btree_axioms;

    let keys = v.map_values(|kv: (&(u32, i32), &String)| *kv.0);
    assert forall|i: int, j: int| 0 <= i < j < s.len() implies key_lt(#[trigger] s[i].0, #[trigger] s[j].0) by {
        lemma_trace_keys_ordered(keys[i], keys[j]);
        assert(keys[i].cmp_spec(&keys[j]) is Less);
    }
    assert forall|i: int| 0 <= i < s.len() implies #[trigger] m.contains_key(s[i].0) && m[s[i].0] == s[i].1 by {
        assert(s[i] == (*v[i].0, *v[i].1));
    }
    assert forall|k: (u32, i32)| #[trigger] m.contains_key(k) implies exists|i: int| 0 <= i < s.len() && s[i].0 == k by {
        assert(v.contains((&k, &m[k])));
        let i = choose|i: int| 0 <= i < v.len() && v[i] == (&k, &m[k]);
        assert(s[i].0 == k);
    }
    assert(in_key_order(s, m));
}

/// Two listings of a map's entries in increasing key order are the same
/// listing: the order in which the traces read is fixed by the traces.
pub proof fn law_key_order_unique(s1: Seq<((u32, i32), String)>, s2: Seq<((u32, i32), String)>, m: Map<(u32, i32), String>)
    requires
        in_key_order(s1, m),
        in_key_order(s2, m),
    ensures
        s1 == s2,
    decreases s1.len(),
{
    if s1.len() == 0 {
        if s2.len() > 0 {
            assert(m.contains_key(s2[0].0));
        }
        assert(s1 =~= s2);
    } else if s2.len() == 0 {
        assert(m.contains_key(s1[0].0));
    } else {
        let k1 = s1[0].0;
        let k2 = s2[0].0;
        assert(m.contains_key(k1));
        assert(m.contains_key(k2));
        let j = choose|j: int| 0 <= j < s2.len() && s2[j].0 == k1;
        let j2 = choose|j: int| 0 <= j < s1.len() && s1[j].0 == k2;
        if j > 0 {
            assert(key_lt(k2, k1));
            if j2 > 0 {
                assert(key_lt(k1, k2));
            }
        }
        assert(k1 == k2);
        let m2 = m.remove(k1);
        let r1 = s1.drop_first();
        let r2 = s2.drop_first();
        assert(in_key_order(r1, m2)) by {
            assert forall|i: int, j: int| 0 <= i < j < r1.len() implies key_lt(#[trigger] r1[i].0, #[trigger] r1[j].0) by {
                assert(r1[i] == s1[i + 1] && r1[j] == s1[j + 1]);
            }
            assert forall|i: int| 0 <= i < r1.len() implies #[trigger] m2.contains_key(r1[i].0) && m2[r1[i].0] == r1[i].1 by {
                assert(r1[i] == s1[i + 1]);
                assert(key_lt(s1[0].0, s1[i + 1].0));
            }
            assert forall|k: (u32, i32)| #[trigger] m2.contains_key(k) implies exists|i: int| 0 <= i < r1.len() && r1[i].0 == k by {
                assert(m.contains_key(k));
                let i = choose|i: int| 0 <= i < s1.len() && s1[i].0 == k;
                assert(r1[i - 1].0 == k);
            }
        }
        assert(in_key_order(r2, m2)) by {
            assert forall|i: int, j: int| 0 <= i < j < r2.len() implies key_lt(#[trigger] r2[i].0, #[trigger] r2[j].0) by {
                assert(r2[i] == s2[i + 1] && r2[j] == s2[j + 1]);
            }
            assert forall|i: int| 0 <= i < r2.len() implies #[trigger] m2.contains_key(r2[i].0) && m2[r2[i].0] == r2[i].1 by {
                assert(r2[i] == s2[i + 1]);
                assert(key_lt(s2[0].0, s2[i + 1].0));
                assert(m.contains_key(s2[i + 1].0) && m[s2[i + 1].0] == s2[i + 1].1);
                assert(s2[i + 1].0 != k1);
            }
            assert forall|k: (u32, i32)| #[trigger] m2.contains_key(k) implies exists|i: int| 0 <= i < r2.len() && r2[i].0 == k by {
                assert(m.contains_key(k));
                let i = choose|i: int| 0 <= i < s2.len() && s2[i].0 == k;
                assert(r2[i - 1].0 == k);
            }
        }
        law_key_order_unique(r1, r2, m2);
        assert(s1[0] == s2[0]);
        assert(s1 =~= seq![s1[0]] + r1);
        assert(s2 =~= seq![s2[0]] + r2);
    }
}

/// Every trace, one per line, in order of depth then member.
pub fn traces(probe: &FilmLoopProbe) -> (r: String)
    ensures
        r@ == join(key_order(probe.traces@).map_values(|t: ((u32, i32), String)| trace_text(t)), "\n"@),
{
    broadcast use vstd::std_specs::btree::group_btree_axioms;

    let ghost m = probe.traces@;
    let iter = probe.traces.iter();
    let ghost v = iter.remaining();
    let ghost s = v.map_values(|kv: (&(u32, i32), &String)| (*kv.0, *kv.1));
    let ghost lines = s.map_values(|t: ((u32, i32), String)| trace_text(t));
    let mut out = String::new();
    let mut first = true;
    for entry in it: iter
        invariant
            first <==> it.index() == 0,
            it.seq() == v,
            s == v.map_values(|kv: (&(u32, i32), &String)| (*kv.0, *kv.1)),
            lines == s.map_values(|t: ((u32, i32), String)| trace_text(t)),
            out@ == join(lines.take(it.index() as int), "\n"@),
    {
        let ghost i = it.index() as int;
        let ghost before = out@;
        assert(entry == v[i]);
        let (key, line) = entry;
        if !first {
            out.append("\n");
        }
        first = false;
        out.append("[d");
        out.append(decimal_text(key.0 as i64).as_str());
        out.append(" m");
        out.append(decimal_text(key.1 as i64).as_str());
        out.append("] ");
        out.append(line.as_str());
        proof {
            assert(lines.take(i + 1).drop_last() =~= lines.take(i));
            assert(lines[i] == trace_text((*key, *line)));
            if i == 0 {
                assert(before =~= Seq::<char>::empty());
                assert(out@ =~= lines[0]);
            } else {
                assert(out@ =~= before + "\n"@ + lines[i]);
            }
        }
    }
    proof {
        assert(lines.take(v.len() as int) =~= lines);
        lemma_iteration_in_key_order(m, v, s);
        law_key_order_unique(s, key_order(m), m);
    }
    out
}

/// The trace text is the trace lines one per line: when no line holds a
/// line break, splitting the text at line breaks gives back each line, in
/// order.
pub proof fn law_traces_read_line_by_line(lines: Seq<Seq<char>>)
    requires
        lines.len() >= 1,
        forall|i: int| 0 <= i < lines.len() ==> !(#[trigger] lines[i]).contains('\n'),
    ensures
        split(join(lines, "\n"@), '\n') == lines,
{
    lemma_join_lines(lines);
    law_split_join_inverse(lines, '\n');
}

/// Joining with the one-character separator `"\n"` puts that character
/// between lines.
proof fn lemma_join_lines(lines: Seq<Seq<char>>)
    ensures
        join(lines, "\n"@) == join_with(lines, '\n'),
    decreases lines.len(),
{
    reveal_strlit("\n");
    if lines.len() >= 2 {
        lemma_join_lines(lines.drop_last());
        assert(join_with(lines.drop_last(), '\n') + "\n"@ =~= join_with(lines.drop_last(), '\n').push('\n'));
    }
}

} // verus!
