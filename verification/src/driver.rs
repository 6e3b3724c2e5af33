//! The collapse driver: the whole single-threaded pipeline from raw bytes
//! to folded output, the per-job worker pass that a concurrent caller runs
//! on each batch of stacks, and the laws that make the concurrent
//! decomposition sound.

use vstd::prelude::*;

use crate::bytes::split_lines_spec;
use crate::occur::{
    add_stacks_from, distinct_keys, has_key, merge_from, occ_cnt, Occurrences,
};
use crate::perf::{
    after_event_spec, collapse_emits, flush_emit, is_comment, lemma_add_stacks_concat,
    lemma_run_inv, lemma_run_split, on_event_line_spec, one_stack_end, one_stack_eof, opt_seq,
    reset_ctx, run_emits, run_state, stack_ctx_fresh, step_line_spec, CollapseError, Folder,
    FolderV,
};

verus! {

/// The folded output of one whole run over `input` from folder state `f`:
/// every line split off, every emitted stack counted, the aggregate
/// rendered one `<stack> <count>` line per unique stack.
pub open spec fn folded_of(f: FolderV, input: Seq<u8>) -> Seq<u8> {
    let lv = split_lines_spec(input);
    let p = add_stacks_from(
        Seq::empty(),
        Seq::empty(),
        collapse_emits(f, lv, 0, lv.len() as int),
        0,
    );
    crate::occur::folded_from(p.0, p.1, 0)
}

/// The bootstrap failed: the first stack yielded no event filter although
/// the input goes on.
pub open spec fn bootstrap_fails(f: FolderV, input: Seq<u8>) -> bool {
    let lv = split_lines_spec(input);
    let e = one_stack_end(f, lv, 0, lv.len() as int);
    let f1 = run_state(f, lv, 0, e);
    &&& f.event_filter is None
    &&& !(f1.event_filter is Some || (one_stack_eof(f, lv, 0, lv.len() as int) && !f1.in_event))
}

impl Folder {
    /// Collapse a whole input: resolve the event filter from the first
    /// stack when none is configured, fold every kept stack, and render the
    /// aggregate. Total over arbitrary bytes; the one failure is a
    /// bootstrap stack that yields no filter.
    pub fn collapse(&mut self, input: &[u8]) -> (r: Result<Vec<u8>, CollapseError>)
        requires
            stack_ctx_fresh(old(self)@),
        ensures
            match r {
                Ok(out) => out@ == folded_of(old(self)@, input@),
                Err(_) => true,
            },
            r is Err <==> bootstrap_fails(old(self)@, input@),
    {
        let ghost f0 = old(self)@;
        let lines = crate::bytes::split_lines(input);
        let ghost lv = split_lines_spec(input@);
        proof {
            assert(lv == Seq::new(lines@.len(), |i: int| lines@[i]@));
            assert(crate::perf::views_of(lines@) == lv);
        }
        let mut occ = Occurrences::new();
        let mut pos: usize = 0;
        match self.pre_process(&lines, &mut pos, &mut occ) {
            Err(e) => {
                return Err(e);
            },
            Ok(()) => {},
        }
        let n = lines.len();
        let ghost f1 = self@;
        let ghost e = pos as int;
        proof {
            lemma_run_inv(f0, lv, 0, e);
            assert(run_emits(f0, lv, 0, 0) =~= Seq::<Seq<u8>>::empty());
        }
        self.collapse_single_threaded(&lines, pos, n, &mut occ);
        proof {
            lemma_run_split(f0, lv, 0, e, n as int);
            lemma_add_stacks_concat(
                Seq::empty(),
                Seq::empty(),
                run_emits(f0, lv, 0, e),
                collapse_emits(f1, lv, e, n as int),
            );
            assert(run_emits(f0, lv, 0, e) + collapse_emits(f1, lv, e, n as int)
                =~= collapse_emits(f0, lv, 0, n as int));
        }
        Ok(occ.write_folded())
    }

    /// One worker's pass over the job `[start, end)`: an independent copy
    /// of the collapser (fresh stack-building state, shared filter and
    /// configuration) folds the job into its own aggregator.
    pub fn collapse_job(&self, lines: &Vec<Vec<u8>>, start: usize, end: usize) -> (r: Occurrences)
        requires
            start <= end <= lines@.len(),
        ensures
            r.wf(),
            (r.keys(), r.counts()) == add_stacks_from(
                Seq::empty(),
                Seq::empty(),
                collapse_emits(
                    reset_ctx(self@),
                    crate::perf::views_of(lines@),
                    start as int,
                    end as int,
                ),
                0,
            ),
    {
        let mut w = self.clone_and_reset_stack_context();
        let mut occ = Occurrences::new();
        w.collapse_single_threaded(lines, start, end, &mut occ);
        occ
    }
}


// ---------------------------------------------------------------------------
// Laws of the concurrent decomposition.
// ---------------------------------------------------------------------------

/// One line never changes the configuration, the job size, or an already
/// resolved event filter.
pub proof fn lemma_step_keeps_config(f: FolderV, l: Seq<u8>)
    ensures
        step_line_spec(f, l).0.opt == f.opt,
        step_line_spec(f, l).0.nstacks_per_job == f.nstacks_per_job,
        f.event_filter is Some ==> step_line_spec(f, l).0.event_filter == f.event_filter,
{
}

/// A whole run never changes them either.
pub proof fn lemma_run_keeps_config(f: FolderV, lines: Seq<Seq<u8>>, i: int, j: int)
    ensures
        run_state(f, lines, i, j).opt == f.opt,
        run_state(f, lines, i, j).nstacks_per_job == f.nstacks_per_job,
        f.event_filter is Some ==> run_state(f, lines, i, j).event_filter == f.event_filter,
    decreases j - i,
{
    if !(i < 0 || i >= j || j > lines.len()) {
        lemma_step_keeps_config(f, lines[i]);
        lemma_run_keeps_config(step_line_spec(f, lines[i]).0, lines, i + 1, j);
    }
}

/// Two folder states that differ at most in the retained process identity,
/// and only while no emission can read it.
pub open spec fn agree_mod_pname(a: FolderV, b: FolderV) -> bool {
    &&& a.cache_line == b.cache_line
    &&& a.event_filter == b.event_filter
    &&& a.in_event == b.in_event
    &&& a.nstacks_per_job == b.nstacks_per_job
    &&& a.skip_stack == b.skip_stack
    &&& a.stack == b.stack
    &&& a.opt == b.opt
    &&& ((a.in_event && !a.skip_stack) ==> a.pname == b.pname)
}

/// The retained process identity of the previous event cannot influence a
/// step: two states that agree modulo it step to states that agree modulo
/// it and emit the same stack.
pub proof fn lemma_step_mod_pname(a: FolderV, b: FolderV, l: Seq<u8>)
    requires
        agree_mod_pname(a, b),
    ensures
        agree_mod_pname(step_line_spec(a, l).0, step_line_spec(b, l).0),
        step_line_spec(a, l).1 == step_line_spec(b, l).1,
{
    if !is_comment(l) {
        let t = crate::bytes::trim_end_spec(l);
        if t.len() == 0 {
            if a.in_event {
                if !a.skip_stack {
                    assert(after_event_spec(a).1 == after_event_spec(b).1);
                }
            }
        } else if a.in_event {
            if !a.skip_stack {
                assert(crate::perf::on_stack_line_spec(a, t) == step_line_spec(a, l).0);
                assert(agree_mod_pname(
                    crate::perf::on_stack_line_spec(a, t),
                    crate::perf::on_stack_line_spec(b, t),
                ));
            }
        } else {
            assert(agree_mod_pname(on_event_line_spec(a, t), on_event_line_spec(b, t)));
        }
    }
}

/// A whole run respects the same relation, line by line.
pub proof fn lemma_run_mod_pname(a: FolderV, b: FolderV, lines: Seq<Seq<u8>>, i: int, j: int)
    requires
        agree_mod_pname(a, b),
    ensures
        agree_mod_pname(run_state(a, lines, i, j), run_state(b, lines, i, j)),
        run_emits(a, lines, i, j) == run_emits(b, lines, i, j),
    decreases j - i,
{
    if !(i < 0 || i >= j || j > lines.len()) {
        lemma_step_mod_pname(a, b, lines[i]);
        lemma_run_mod_pname(
            step_line_spec(a, lines[i]).0,
            step_line_spec(b, lines[i]).0,
            lines,
            i + 1,
            j,
        );
    }
}

/// Thread-invariance of the decomposition into jobs: with the event filter
/// resolved before fan-out, cutting the line stream at a stack boundary
/// and running the tail on a fresh worker copy yields exactly the stacks,
/// in order, of the uncut single-threaded pass. Applied once per cut, this
/// makes the merged result of any job partition equal the single-threaded
/// result, whatever the thread count and job size.
pub proof fn lemma_job_partition_equivalence(
    f: FolderV,
    lines: Seq<Seq<u8>>,
    i: int,
    k: int,
    j: int,
)
    requires
        stack_ctx_fresh(f),
        f.event_filter is Some,
        0 <= i <= k <= j <= lines.len(),
        !run_state(f, lines, i, k).in_event,
    ensures
        collapse_emits(f, lines, i, j) == collapse_emits(f, lines, i, k) + collapse_emits(
            reset_ctx(f),
            lines,
            k,
            j,
        ),
{
    let s1 = run_state(f, lines, i, k);
    lemma_run_inv(f, lines, i, k);
    lemma_run_keeps_config(f, lines, i, k);
    lemma_run_split(f, lines, i, k, j);
    assert(s1.stack =~= reset_ctx(f).stack);
    assert(s1.cache_line =~= reset_ctx(f).cache_line);
    assert(agree_mod_pname(s1, reset_ctx(f)));
    lemma_run_mod_pname(s1, reset_ctx(f), lines, k, j);
    let e1 = run_state(s1, lines, k, j);
    let e2 = run_state(reset_ctx(f), lines, k, j);
    assert(opt_seq(flush_emit(e1)) == opt_seq(flush_emit(e2))) by {
        if e1.in_event && !e1.skip_stack {
            assert(flush_emit(e1) == flush_emit(e2));
        }
    }
    assert(collapse_emits(f, lines, i, k) =~= run_emits(f, lines, i, k));
    assert(collapse_emits(f, lines, i, j) =~= collapse_emits(f, lines, i, k) + collapse_emits(
        reset_ctx(f),
        lines,
        k,
        j,
    ));
}

/// Filter determinism: with a filter in force, an event block of another
/// type is excluded entirely. Its header only marks the event for discard,
/// its frame lines change nothing, and the blank line ending it emits no
/// stack and returns the parser to its prior resting state.
pub proof fn lemma_filter_excludes_block(
    f: FolderV,
    lines: Seq<Seq<u8>>,
    i: int,
    j: int,
)
    requires
        stack_ctx_fresh(f),
        f.event_filter is Some,
        0 <= i < j <= lines.len(),
        // the header: a recognized event line whose type differs from the filter
        !is_comment(lines[i]),
        crate::bytes::trim_end_spec(lines[i]).len() > 0,
        crate::perf::event_line_parts_spec(crate::bytes::trim_end_spec(lines[i])) is Some,
        ({
            let t = crate::bytes::trim_end_spec(lines[i]);
            let tok = crate::perf::event_token(t);
            tok.len() > 0 && tok[tok.len() - 1] == crate::bytes::B_COLON
                && tok.drop_last() != f.event_filter->Some_0
        }),
        // the frame lines: nothing that would end the stack early
        forall|m: int|
            i < m < j - 1 ==> (is_comment(lines[m]) || crate::bytes::trim_end_spec(
                lines[m],
            ).len() > 0),
        // the blank line ending the block
        !is_comment(lines[j - 1]),
        crate::bytes::trim_end_spec(lines[j - 1]).len() == 0,
    ensures
        run_emits(f, lines, i, j) == Seq::<Seq<u8>>::empty(),
        run_state(f, lines, i, j) == (FolderV { pname: f.pname, ..f }),
{
    let skip = FolderV { in_event: true, skip_stack: true, ..f };
    assert(step_line_spec(f, lines[i]).0 == skip);
    assert(step_line_spec(f, lines[i]).1 is None);
    lemma_skip_block(skip, f, lines, i + 1, j);
}

/// While an event is marked for discard, nothing changes until its blank
/// line, which emits nothing and resets.
proof fn lemma_skip_block(skip: FolderV, f: FolderV, lines: Seq<Seq<u8>>, m: int, j: int)
    requires
        stack_ctx_fresh(f),
        skip == (FolderV { in_event: true, skip_stack: true, ..f }),
        0 < m < j <= lines.len(),
        forall|p: int|
            m <= p < j - 1 ==> (is_comment(lines[p]) || crate::bytes::trim_end_spec(
                lines[p],
            ).len() > 0),
        !is_comment(lines[j - 1]),
        crate::bytes::trim_end_spec(lines[j - 1]).len() == 0,
    ensures
        run_emits(skip, lines, m, j) == Seq::<Seq<u8>>::empty(),
        run_state(skip, lines, m, j) == (FolderV { pname: f.pname, ..f }),
    decreases j - m,
{
    if m == j - 1 {
        let nx = step_line_spec(skip, lines[m]).0;
        assert(nx == after_event_spec(skip).0);
        assert(after_event_spec(skip).1 is None);
        assert(after_event_spec(skip).0 =~~= (FolderV { pname: f.pname, ..f }));
        assert(run_state(nx, lines, m + 1, j) == nx);
        assert(run_state(skip, lines, m, j) == nx);
        assert(run_emits(nx, lines, m + 1, j) =~= Seq::<Seq<u8>>::empty());
        assert(run_emits(skip, lines, m, j) =~= Seq::<Seq<u8>>::empty());
    } else {
        assert(step_line_spec(skip, lines[m]).0 == skip);
        assert(step_line_spec(skip, lines[m]).1 is None);
        lemma_skip_block(skip, f, lines, m + 1, j);
        assert(run_state(skip, lines, m, j) == run_state(skip, lines, m + 1, j));
        assert(run_emits(skip, lines, m, j) =~= run_emits(skip, lines, m + 1, j));
    }
}

/// Thread-invariance, end to end, for one cut: run the first job, build
/// the second job's aggregate on a fresh worker, merge it in; every stack
/// string is present iff the uncut single-threaded pass has it, with
/// exactly the same count. Applied cut by cut, any partition of the input
/// into jobs yields the single-threaded multiset of (stack, count) pairs,
/// whatever the thread count and job size.
pub proof fn lemma_partitioned_counts_like_one_pass(
    f: FolderV,
    lines: Seq<Seq<u8>>,
    i: int,
    k: int,
    j: int,
    q: Seq<u8>,
)
    requires
        stack_ctx_fresh(f),
        f.event_filter is Some,
        0 <= i <= k <= j <= lines.len(),
        !run_state(f, lines, i, k).in_event,
    ensures
        ({
            let e: Seq<Seq<u8>> = Seq::empty();
            let ec: Seq<u64> = Seq::empty();
            let whole = add_stacks_from(e, ec, collapse_emits(f, lines, i, j), 0);
            let o1 = add_stacks_from(e, ec, collapse_emits(f, lines, i, k), 0);
            let o2 = add_stacks_from(e, ec, collapse_emits(reset_ctx(f), lines, k, j), 0);
            let merged = merge_from(o1.0, o1.1, o2.0, o2.1, 0);
            &&& occ_cnt(merged.0, merged.1, q) == occ_cnt(whole.0, whole.1, q)
            &&& (has_key(merged.0, q) <==> has_key(whole.0, q))
        }),
{
    let e: Seq<Seq<u8>> = Seq::empty();
    let ec: Seq<u64> = Seq::empty();
    let e1 = collapse_emits(f, lines, i, k);
    let e2 = collapse_emits(reset_ctx(f), lines, k, j);
    lemma_job_partition_equivalence(f, lines, i, k, j);
    lemma_add_stacks_concat(e, ec, e1, e2);
    let o1 = add_stacks_from(e, ec, e1, 0);
    assert(distinct_keys(e));
    crate::occur::lemma_add_stacks_cnt(e, ec, e1, 0, q);
    crate::occur::lemma_merge_counts_like_sequential(o1.0, o1.1, e2, q);
}

} // verus!
