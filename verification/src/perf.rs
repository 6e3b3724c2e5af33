//! The format parser: a line-oriented state machine over one profiler's
//! textual grammar. It recognizes event headers and frame lines, normalizes
//! each frame, and hands completed stacks to the occurrence aggregator.

use vstd::prelude::*;

use crate::bytes::{
    append_bytes, byte_is_digit, byte_is_hex_digit, byte_is_ws, bytes_eq, find_byte,
    find_byte_spec, is_digit, is_hex_digit, lemma_find_byte_props, lemma_rfind_byte_props,
    rfind_byte, rfind_byte_spec, subvec, trim_end_spec, trim_start_idx, trim_start_spec, B_COLON,
    B_DASH, B_GT, B_LC_X, B_LPAREN, B_PLUS, B_QMARK, B_RPAREN, B_SEMI, B_SLASH, B_SPACE,
    B_ZERO,
};
use crate::normalize::{
    demangle_bytes, demangled, fix_partially_demangled_rust_symbol, fix_rust_spec,
    normalize_frame, normalize_frame_spec,
};
use crate::occur::{occ_add, Occurrences};

verus! {

/// Configuration for one collapse run.
pub struct Options {
    /// Annotate JIT-compiled frames with a `_[j]` suffix.
    pub annotate_jit: bool,
    /// Annotate kernel frames with a `_[k]` suffix.
    pub annotate_kernel: bool,
    /// Demangle function names through the outside demangler.
    pub demangle: bool,
    /// Only count samples of this event type. When unset, the first
    /// encountered event type is adopted for the rest of the run.
    pub event_filter: Option<Vec<u8>>,
    /// Keep raw addresses where no symbol is known.
    pub include_addrs: bool,
    /// Suffix the root frame with the process id.
    pub include_pid: bool,
    /// Suffix the root frame with process and thread id; implies
    /// `include_pid`.
    pub include_tid: bool,
    /// Worker count for the concurrent driver; zero is treated as one.
    pub nthreads: usize,
}

/// Mathematical image of [`Options`].
#[verifier::ext_equal]
pub ghost struct OptionsV {
    pub annotate_jit: bool,
    pub annotate_kernel: bool,
    pub demangle: bool,
    pub event_filter: Option<Seq<u8>>,
    pub include_addrs: bool,
    pub include_pid: bool,
    pub include_tid: bool,
    pub nthreads: int,
}

impl View for Options {
    type V = OptionsV;

    open spec fn view(&self) -> OptionsV {
        OptionsV {
            annotate_jit: self.annotate_jit,
            annotate_kernel: self.annotate_kernel,
            demangle: self.demangle,
            event_filter: match self.event_filter {
                Some(v) => Some(v@),
                None => None,
            },
            include_addrs: self.include_addrs,
            include_pid: self.include_pid,
            include_tid: self.include_tid,
            nthreads: self.nthreads as int,
        }
    }
}

impl Options {
    /// Defaults: no annotation, no demangling, no filter, bare process
    /// names, one worker. A caller that knows the host's parallelism can
    /// raise `nthreads`.
    pub fn with_defaults() -> (r: Options)
        ensures
            r@ == (OptionsV {
                annotate_jit: false,
                annotate_kernel: false,
                demangle: false,
                event_filter: None,
                include_addrs: false,
                include_pid: false,
                include_tid: false,
                nthreads: 1,
            }),
    {
        Options {
            annotate_jit: false,
            annotate_kernel: false,
            demangle: false,
            event_filter: None,
            include_addrs: false,
            include_pid: false,
            include_tid: false,
            nthreads: 1,
        }
    }
}

impl Default for Options {
    fn default() -> (r: Options)
        ensures
            r@.event_filter is None,
            !r@.annotate_jit && !r@.annotate_kernel && !r@.demangle,
            !r@.include_addrs && !r@.include_pid && !r@.include_tid,
            r@.nthreads == 1,
    {
        Options::with_defaults()
    }
}

/// A stack collapser for one profiler's script output.
pub struct Folder {
    /// Scratch list reused while a frame line is split into logical frames.
    cache_line: Vec<Vec<u8>>,
    /// The active event-type filter: the configured one, or the first
    /// encountered event type once resolved.
    event_filter: Option<Vec<u8>>,
    /// Between a recognized header and the blank line ending its stack.
    in_event: bool,
    /// Stacks handed to one worker at a time by the concurrent driver.
    nstacks_per_job: usize,
    /// Current process identity, already formatted for the root frame.
    pname: Vec<u8>,
    /// The active filter marked the current event for discard.
    skip_stack: bool,
    /// Frames of the current stack, root first.
    stack: Vec<Vec<u8>>,
    opt: Options,
}

/// Mathematical image of [`Folder`].
#[verifier::ext_equal]
pub ghost struct FolderV {
    pub cache_line: Seq<Seq<u8>>,
    pub event_filter: Option<Seq<u8>>,
    pub in_event: bool,
    pub nstacks_per_job: int,
    pub pname: Seq<u8>,
    pub skip_stack: bool,
    pub stack: Seq<Seq<u8>>,
    pub opt: OptionsV,
}

impl View for Folder {
    type V = FolderV;

    closed spec fn view(&self) -> FolderV {
        FolderV {
            cache_line: Seq::new(self.cache_line@.len(), |i: int| self.cache_line@[i]@),
            event_filter: match self.event_filter {
                Some(v) => Some(v@),
                None => None,
            },
            in_event: self.in_event,
            nstacks_per_job: self.nstacks_per_job as int,
            pname: self.pname@,
            skip_stack: self.skip_stack,
            stack: Seq::new(self.stack@.len(), |i: int| self.stack@[i]@),
            opt: self.opt@,
        }
    }
}

/// The scratch buffer rests empty between lines, and outside an event the
/// discard flag is clear and no frames are pending.
pub open spec fn folder_inv(f: FolderV) -> bool {
    &&& f.cache_line.len() == 0
    &&& (!f.in_event ==> !f.skip_stack && f.stack.len() == 0)
}

/// Transient stack-building state at rest: what a worker starts from.
pub open spec fn stack_ctx_fresh(f: FolderV) -> bool {
    &&& f.cache_line.len() == 0
    &&& !f.in_event
    &&& !f.skip_stack
    &&& f.stack.len() == 0
}

// ---------------------------------------------------------------------------
// Event header grammar.
// ---------------------------------------------------------------------------

/// Scan for the first space-delimited all-digit word (or digit word with an
/// embedded `/`); what precedes it (trimmed) is the process name, the word
/// itself the process/thread identity. One left-to-right pass.
pub open spec fn event_scan(
    line: Seq<u8>,
    idx: int,
    word_start: int,
    all_digits: bool,
    last_was_space: bool,
    slash_at: Option<int>,
) -> Option<(Seq<u8>, Seq<u8>, Seq<u8>)>
    decreases line.len() - idx,
{
    if idx < 0 || idx >= line.len() {
        None
    } else {
        let c = line[idx];
        if c == B_SPACE {
            if all_digits && !last_was_space {
                let comm = crate::bytes::trim_spec(line.subrange(0, word_start - 1));
                match slash_at {
                    Some(s) => Some(
                        (comm, line.subrange(word_start, s), line.subrange(s + 1, idx)),
                    ),
                    None => Some((comm, seq![B_QMARK], line.subrange(word_start, idx))),
                }
            } else {
                event_scan(line, idx + 1, idx + 1, true, true, slash_at)
            }
        } else if c == B_SLASH {
            event_scan(
                line,
                idx + 1,
                word_start,
                all_digits,
                false,
                if all_digits {
                    Some(idx)
                } else {
                    slash_at
                },
            )
        } else if is_digit(c) {
            event_scan(line, idx + 1, word_start, all_digits, false, slash_at)
        } else {
            event_scan(line, idx + 1, word_start, false, false, None)
        }
    }
}

/// Parsed event header fields: process name, pid, tid. The pid is `?` when
/// the identity word holds no `/`.
pub open spec fn event_line_parts_spec(line: Seq<u8>) -> Option<(Seq<u8>, Seq<u8>, Seq<u8>)> {
    event_scan(line, 0, 0, false, false, None)
}

impl Folder {
    /// Split an event header line into process name, pid and tid.
    pub fn event_line_parts(line: &[u8]) -> (r: Option<(Vec<u8>, Vec<u8>, Vec<u8>)>)
        ensures
            match r {
                Some((comm, pid, tid)) => event_line_parts_spec(line@) == Some(
                    (comm@, pid@, tid@),
                ),
                None => event_line_parts_spec(line@) is None,
            },
    {
        let n: usize = line.len();
        let mut idx: usize = 0;
        let mut word_start: usize = 0;
        let mut all_digits: bool = false;
        let mut last_was_space: bool = false;
        let mut slash_at: Option<usize> = None;
        while idx < n
            invariant
                n == line@.len(),
                idx <= n,
                word_start <= idx,
                all_digits ==> word_start >= 1,
                match slash_at {
                    Some(s) => word_start <= s < idx && all_digits && !last_was_space,
                    None => true,
                },
                event_line_parts_spec(line@) == event_scan(
                    line@,
                    idx as int,
                    word_start as int,
                    all_digits,
                    last_was_space,
                    match slash_at {
                        Some(s) => Some(s as int),
                        None => None,
                    },
                ),
            decreases n - idx,
        {
            let c = line[idx];
            if c == B_SPACE {
                if all_digits && !last_was_space {
                    let comm_raw = subvec(line, 0, word_start - 1);
                    let ce = crate::bytes::trim_end_idx(comm_raw.as_slice());
                    let te = subvec(comm_raw.as_slice(), 0, ce);
                    let cs = trim_start_idx(te.as_slice());
                    let comm: Vec<u8> = subvec(te.as_slice(), cs, te.len());
                    match slash_at {
                        Some(s) => {
                            let pid = subvec(line, word_start, s);
                            let tid = subvec(line, s + 1, idx);
                            return Some((comm, pid, tid));
                        },
                        None => {
                            let mut pid: Vec<u8> = Vec::new();
                            pid.push(B_QMARK);
                            proof {
                                assert(pid@ =~= seq![B_QMARK]);
                            }
                            let tid = subvec(line, word_start, idx);
                            return Some((comm, pid, tid));
                        },
                    }
                } else {
                    word_start = idx + 1;
                    all_digits = true;
                    last_was_space = true;
                    idx = idx + 1;
                }
            } else if c == B_SLASH {
                if all_digits {
                    slash_at = Some(idx);
                }
                last_was_space = false;
                idx = idx + 1;
            } else if byte_is_digit(c) {
                last_was_space = false;
                idx = idx + 1;
            } else {
                all_digits = false;
                slash_at = None;
                last_was_space = false;
                idx = idx + 1;
            }
        }
        None
    }
}

// ---------------------------------------------------------------------------
// Frame line grammar.
// ---------------------------------------------------------------------------

/// Split a frame line `<address> <raw-function> (<module>)` into its three
/// parts: address, raw function text (a single space when absent), and the
/// module without its mandatory parentheses.
pub open spec fn stack_line_parts_spec(line: Seq<u8>) -> Option<(Seq<u8>, Seq<u8>, Seq<u8>)> {
    let t = trim_start_spec(line);
    match find_byte_spec(t, B_SPACE) {
        None => None,
        Some(sp) => {
            let pc = trim_end_spec(t.subrange(0, sp));
            let rest = t.subrange(sp + 1, t.len() as int);
            match rfind_byte_spec(rest, B_SPACE) {
                None => None,
                Some(rsp) => {
                    let module = rest.subrange(rsp + 1, rest.len() as int);
                    if module.len() >= 2 && module[0] == B_LPAREN && module[module.len() - 1]
                        == B_RPAREN {
                        let inner = module.subrange(1, module.len() - 1);
                        let rf = crate::bytes::trim_spec(rest.subrange(0, rsp));
                        let rawfunc = if rf.len() == 0 {
                            seq![B_SPACE]
                        } else {
                            rf
                        };
                        Some((pc, rawfunc, inner))
                    } else {
                        None
                    }
                },
            }
        },
    }
}

impl Folder {
    /// Split a frame line into address, raw function and module.
    pub fn stack_line_parts(line: &[u8]) -> (r: Option<(Vec<u8>, Vec<u8>, Vec<u8>)>)
        ensures
            match r {
                Some((pc, rawfunc, module)) => stack_line_parts_spec(line@) == Some(
                    (pc@, rawfunc@, module@),
                ),
                None => stack_line_parts_spec(line@) is None,
            },
    {
        let ts = trim_start_idx(line);
        let t = subvec(line, ts, line.len());
        proof {
            lemma_find_byte_props(t@, B_SPACE);
        }
        let sp = match find_byte(t.as_slice(), B_SPACE) {
            Some(sp) => sp,
            None => {
                return None;
            },
        };
        let pc_raw = subvec(t.as_slice(), 0, sp);
        let pe = crate::bytes::trim_end_idx(pc_raw.as_slice());
        let pc = subvec(pc_raw.as_slice(), 0, pe);
        let rest = subvec(t.as_slice(), sp + 1, t.len());
        proof {
            lemma_rfind_byte_props(rest@, B_SPACE);
        }
        let rsp = match rfind_byte(rest.as_slice(), B_SPACE) {
            Some(rsp) => rsp,
            None => {
                return None;
            },
        };
        let module = subvec(rest.as_slice(), rsp + 1, rest.len());
        if !(module.len() >= 2 && module[0] == B_LPAREN && module[module.len() - 1] == B_RPAREN) {
            return None;
        }
        let inner = subvec(module.as_slice(), 1, module.len() - 1);
        let rf_raw = subvec(rest.as_slice(), 0, rsp);
        let re = crate::bytes::trim_end_idx(rf_raw.as_slice());
        let rf_te = subvec(rf_raw.as_slice(), 0, re);
        let rs = trim_start_idx(rf_te.as_slice());
        let rf = subvec(rf_te.as_slice(), rs, rf_te.len());
        let rawfunc: Vec<u8> = if rf.len() == 0 {
            let mut v: Vec<u8> = Vec::new();
            v.push(B_SPACE);
            proof {
                assert(v@ =~= seq![B_SPACE]);
            }
            v
        } else {
            rf
        };
        Some((pc, rawfunc, inner))
    }
}

/// Rightmost start of a `+0x` in `s`, if any.
pub open spec fn rfind_plus0x(s: Seq<u8>) -> Option<int>
    decreases s.len(),
{
    if s.len() < 3 {
        None
    } else if s[s.len() - 3] == B_PLUS && s[s.len() - 2] == B_ZERO && s[s.len() - 1] == B_LC_X {
        Some(s.len() - 3)
    } else {
        rfind_plus0x(s.take(s.len() - 1))
    }
}

/// Strip a trailing symbol offset `+0x<hex>` from a raw function name.
pub open spec fn strip_offset_spec(s: Seq<u8>) -> Seq<u8> {
    match rfind_plus0x(s) {
        None => s,
        Some(i) => {
            if forall|j: int| i + 3 <= j < s.len() ==> is_hex_digit(s[j]) {
                s.subrange(0, i)
            } else {
                s
            }
        },
    }
}

fn strip_offset(s: &[u8]) -> (r: Vec<u8>)
    ensures
        r@ == strip_offset_spec(s@),
{
    let n: usize = s.len();
    let mut end: usize = n;
    proof {
        assert(s@.take(n as int) =~= s@);
    }
    while end >= 3
        invariant
            end <= n,
            n == s@.len(),
            rfind_plus0x(s@) == rfind_plus0x(s@.take(end as int)),
        decreases end,
    {
        if s[end - 3] == B_PLUS && s[end - 2] == B_ZERO && s[end - 1] == B_LC_X {
            let i: usize = end - 3;
            proof {
                assert(s@.take(end as int)[end - 3] == s@[end - 3]);
                assert(rfind_plus0x(s@) == Some(i as int));
            }
            let mut j: usize = i + 3;
            while j < n
                invariant
                    i + 3 <= j <= n,
                    n == s@.len(),
                    rfind_plus0x(s@) == Some(i as int),
                    forall|m: int| i + 3 <= m < j ==> is_hex_digit(s@[m]),
                decreases n - j,
            {
                if !byte_is_hex_digit(s[j]) {
                    return subvec(s, 0, n);
                }
                j = j + 1;
            }
            return subvec(s, 0, i);
        }
        proof {
            assert(s@.take(end as int).take(end as int - 1) =~= s@.take(end as int - 1));
        }
        end = end - 1;
    }
    subvec(s, 0, n)
}

/// First start of a `->` at or after `i`.
pub open spec fn find_arrow_from(s: Seq<u8>, i: int) -> Option<int>
    decreases s.len() - i,
{
    if i < 0 || i + 2 > s.len() {
        None
    } else if s[i] == B_DASH && s[i + 1] == B_GT {
        Some(i)
    } else {
        find_arrow_from(s, i + 1)
    }
}

pub proof fn lemma_find_arrow_props(s: Seq<u8>, i: int)
    ensures
        match find_arrow_from(s, i) {
            Some(k) => i <= k && k + 2 <= s.len() && s[k] == B_DASH && s[k + 1] == B_GT,
            None => true,
        },
    decreases s.len() - i,
{
    if !(i < 0 || i + 2 > s.len()) && !(s[i] == B_DASH && s[i + 1] == B_GT) {
        lemma_find_arrow_props(s, i + 1);
    }
}

/// The pieces of `s` split on `->`, from position `i` on.
pub open spec fn split_arrow_from(s: Seq<u8>, i: int) -> Seq<Seq<u8>>
    decreases s.len() - i,
{
    match find_arrow_from(s, i) {
        Some(k) => {
            if i <= k && k + 2 <= s.len() {
                seq![s.subrange(i, k)] + split_arrow_from(s, k + 2)
            } else {
                seq![s.subrange(i, s.len() as int)]
            }
        },
        None => seq![s.subrange(i, s.len() as int)],
    }
}

/// The logical frames encoded in one raw function: split on the inlining
/// separator `->`.
pub open spec fn split_arrow(s: Seq<u8>) -> Seq<Seq<u8>> {
    split_arrow_from(s, 0)
}

/// The views of a list of byte strings.
pub open spec fn views_of(l: Seq<Vec<u8>>) -> Seq<Seq<u8>> {
    Seq::new(l.len(), |i: int| l[i]@)
}

fn find_arrow(s: &[u8], from: usize) -> (r: Option<usize>)
    ensures
        match r {
            Some(k) => find_arrow_from(s@, from as int) == Some(k as int),
            None => find_arrow_from(s@, from as int) is None,
        },
{
    let n: usize = s.len();
    let mut idx: usize = from;
    while n >= 2 && idx <= n - 2
        invariant
            n == s@.len(),
            from <= idx,
            find_arrow_from(s@, from as int) == find_arrow_from(s@, idx as int),
        decreases n - idx,
    {
        if s[idx] == B_DASH && s[idx + 1] == B_GT {
            return Some(idx);
        }
        idx = idx + 1;
    }
    None
}

fn split_arrow_exec(s: &[u8]) -> (r: Vec<Vec<u8>>)
    ensures
        views_of(r@) == split_arrow(s@),
{
    let n: usize = s.len();
    let mut acc: Vec<Vec<u8>> = Vec::new();
    let mut pos: usize = 0;
    let mut done: bool = false;
    proof {
        assert(views_of(acc@) =~= Seq::<Seq<u8>>::empty());
    }
    while !done
        invariant
            n == s@.len(),
            pos <= n,
            !done ==> split_arrow(s@) == views_of(acc@) + split_arrow_from(s@, pos as int),
            done ==> views_of(acc@) == split_arrow(s@),
        decreases n - pos, (if done {
            0int
        } else {
            1int
        }),
    {
        proof {
            lemma_find_arrow_props(s@, pos as int);
        }
        match find_arrow(s, pos) {
            None => {
                let piece = subvec(s, pos, n);
                let ghost before = acc@;
                acc.push(piece);
                proof {
                    assert(views_of(acc@) =~= views_of(before).push(piece@));
                    assert(split_arrow_from(s@, pos as int) =~= seq![s@.subrange(
                        pos as int,
                        n as int,
                    )]);
                    assert(views_of(acc@) =~= split_arrow(s@));
                }
                done = true;
            },
            Some(k) => {
                let piece = subvec(s, pos, k);
                let ghost before = acc@;
                acc.push(piece);
                proof {
                    assert(views_of(acc@) =~= views_of(before).push(piece@));
                    assert(split_arrow_from(s@, pos as int) == seq![s@.subrange(
                        pos as int,
                        k as int,
                    )] + split_arrow_from(s@, k + 2));
                    assert(views_of(acc@) + split_arrow_from(s@, k + 2) =~= views_of(before)
                        + split_arrow_from(s@, pos as int));
                }
                pos = k + 2;
            },
        }
    }
    acc
}

// ---------------------------------------------------------------------------
// The state machine's transitions.
// ---------------------------------------------------------------------------

/// `"java"`: the process identity that turns on Java tidying.
pub open spec fn lit_java() -> Seq<u8> {
    seq![106u8, 97u8, 118u8, 97u8]
}

fn mk_java() -> (v: Vec<u8>)
    ensures
        v@ == lit_java(),
{
    let mut v: Vec<u8> = Vec::new();
    v.push(106);
    v.push(97);
    v.push(118);
    v.push(97);
    proof {
        assert(v@ =~= lit_java());
    }
    v
}

/// Spaces replaced by underscores, for the root frame's process name.
pub open spec fn underscored(s: Seq<u8>) -> Seq<u8> {
    s.map(|_i: int, b: u8| if b == B_SPACE { 95u8 } else { b })
}

fn underscored_exec(s: &[u8]) -> (r: Vec<u8>)
    ensures
        r@ == underscored(s@),
{
    let mut r: Vec<u8> = Vec::new();
    let mut i: usize = 0;
    while i < s.len()
        invariant
            i <= s@.len(),
            r@ == underscored(s@.subrange(0, i as int)),
        decreases s@.len() - i,
    {
        let b = s[i];
        if b == B_SPACE {
            r.push(95);
        } else {
            r.push(b);
        }
        proof {
            assert(underscored(s@.subrange(0, (i + 1) as int)) =~= underscored(
                s@.subrange(0, i as int),
            ).push(if s@[i as int] == B_SPACE {
                95u8
            } else {
                s@[i as int]
            }));
        }
        i = i + 1;
    }
    proof {
        assert(s@.subrange(0, s@.len() as int) =~= s@);
    }
    r
}

/// The trailing event-type token of a header line.
pub open spec fn event_token(line: Seq<u8>) -> Seq<u8> {
    match rfind_byte_spec(line, B_SPACE) {
        Some(i) => line.subrange(i + 1, line.len() as int),
        None => line,
    }
}

/// The root-frame identity: process name with spaces underscored, suffixed
/// with `-<pid>` or `-<pid>/<tid>` as configured.
pub open spec fn pname_of(comm: Seq<u8>, pid: Seq<u8>, tid: Seq<u8>, opt: OptionsV) -> Seq<u8> {
    let base = underscored(comm);
    if opt.include_tid {
        base + seq![B_DASH] + pid + seq![B_SLASH] + tid
    } else if opt.include_pid {
        base + seq![B_DASH] + pid
    } else {
        base
    }
}

/// Effect of a non-blank, non-comment line seen while idle: a recognized
/// header enters the event, resolves or applies the filter, and records the
/// process identity; anything else stays idle.
pub open spec fn on_event_line_spec(f: FolderV, line: Seq<u8>) -> FolderV {
    match event_line_parts_spec(line) {
        None => FolderV { in_event: false, ..f },
        Some((comm, pid, tid)) => {
            let tok = event_token(line);
            let has_ev = tok.len() > 0 && tok[tok.len() - 1] == B_COLON;
            if has_ev {
                let ev = tok.drop_last();
                match f.event_filter {
                    Some(flt) => {
                        if ev != flt {
                            FolderV { in_event: true, skip_stack: true, ..f }
                        } else {
                            FolderV { in_event: true, pname: pname_of(comm, pid, tid, f.opt), ..f }
                        }
                    },
                    None => FolderV {
                        in_event: true,
                        event_filter: Some(ev),
                        pname: pname_of(comm, pid, tid, f.opt),
                        ..f
                    },
                }
            } else {
                FolderV { in_event: true, pname: pname_of(comm, pid, tid, f.opt), ..f }
            }
        },
    }
}

/// The frames one frame line contributes, fully normalized; every piece
/// after the first is an inlined frame.
pub open spec fn line_frames(
    pieces: Seq<Seq<u8>>,
    module: Seq<u8>,
    pc: Seq<u8>,
    opt: OptionsV,
    java_proc: bool,
) -> Seq<Seq<u8>> {
    Seq::new(
        pieces.len(),
        |i: int|
            normalize_frame_spec(
                pieces[i],
                module,
                pc,
                opt.include_addrs,
                opt.annotate_kernel,
                opt.annotate_jit,
                java_proc,
                i > 0,
            ),
    )
}

/// Effect of a non-blank line seen inside an event: a recognized frame line
/// prepends its normalized frames (the stack is kept root-first); a
/// module pseudo-frame or an unrecognized line changes nothing; everything
/// is ignored while the event is marked for discard.
pub open spec fn on_stack_line_spec(f: FolderV, line: Seq<u8>) -> FolderV {
    if f.skip_stack {
        f
    } else {
        match stack_line_parts_spec(line) {
            None => f,
            Some((pc, rawfunc0, module)) => {
                let rawfunc = strip_offset_spec(rawfunc0);
                if rawfunc.len() > 0 && rawfunc[0] == B_LPAREN {
                    f
                } else {
                    let dm = if f.opt.demangle {
                        demangled(rawfunc)
                    } else {
                        fix_rust_spec(rawfunc)
                    };
                    let pieces = split_arrow(dm);
                    let frames = line_frames(pieces, module, pc, f.opt, f.pname == lit_java());
                    FolderV { stack: frames + f.stack, ..f }
                }
            },
        }
    }
}

/// Frames joined by `;`, from index `i` on.
pub open spec fn joined_from(stack: Seq<Seq<u8>>, i: int) -> Seq<u8>
    decreases stack.len() - i,
{
    if i < 0 || i >= stack.len() {
        Seq::empty()
    } else {
        seq![B_SEMI] + stack[i] + joined_from(stack, i + 1)
    }
}

/// The canonical string of a completed stack: the process identity, then
/// every frame root-first, `;`-separated.
pub open spec fn stack_str(pname: Seq<u8>, stack: Seq<Seq<u8>>) -> Seq<u8> {
    pname + joined_from(stack, 0)
}

/// Effect of the blank line ending an event: emit the completed stack
/// unless the filter marked it for discard, and return to idle.
pub open spec fn after_event_spec(f: FolderV) -> (FolderV, Option<Seq<u8>>) {
    let f2 = FolderV { in_event: false, skip_stack: false, stack: Seq::empty(), ..f };
    if !f.skip_stack {
        (f2, Some(stack_str(f.pname, f.stack)))
    } else {
        (f2, None)
    }
}

impl Folder {
    /// One header line while idle.
    pub fn on_event_line(&mut self, line: &[u8])
        ensures
            final(self)@ == on_event_line_spec(old(self)@, line@),
    {
        match Self::event_line_parts(line) {
            None => {
                self.in_event = false;
                proof {
                    assert(self@ =~= on_event_line_spec(old(self)@, line@));
                }
            },
            Some((comm, pid, tid)) => {
                self.in_event = true;
                proof {
                    lemma_rfind_byte_props(line@, B_SPACE);
                }
                let tok: Vec<u8> = match rfind_byte(line, B_SPACE) {
                    Some(i) => {
                        let n: usize = line.len();
                        proof {
                            assert(i < line@.len());
                        }
                        subvec(line, i + 1, n)
                    },
                    None => subvec(line, 0, line.len()),
                };
                if tok.len() > 0 && tok[tok.len() - 1] == B_COLON {
                    let ev = subvec(tok.as_slice(), 0, tok.len() - 1);
                    proof {
                        assert(ev@ =~= tok@.drop_last());
                    }
                    let have_filter = self.event_filter.is_some();
                    let matches: bool = match &self.event_filter {
                        Some(flt) => bytes_eq(ev.as_slice(), flt.as_slice()),
                        None => false,
                    };
                    if have_filter && !matches {
                        self.skip_stack = true;
                        proof {
                            assert(event_line_parts_spec(line@) == Some((comm@, pid@, tid@)));
                            assert(tok@ == event_token(line@));
                            assert(tok@.len() > 0 && tok@[tok@.len() - 1] == B_COLON);
                            assert(old(self)@.event_filter is Some);
                            assert(ev@ != old(self)@.event_filter->Some_0);
                            assert(self@ =~= on_event_line_spec(old(self)@, line@));
                        }
                        return ;
                    }
                    if !have_filter {
                        self.event_filter = Some(ev);
                    }
                }
                let base = underscored_exec(comm.as_slice());
                let ghost b0 = base@;
                self.pname = base;
                if self.opt.include_tid {
                    self.pname.push(B_DASH);
                    append_bytes(&mut self.pname, pid.as_slice());
                    self.pname.push(B_SLASH);
                    append_bytes(&mut self.pname, tid.as_slice());
                    proof {
                        assert(self@.pname =~= b0 + seq![B_DASH] + pid@ + seq![B_SLASH] + tid@);
                    }
                } else if self.opt.include_pid {
                    self.pname.push(B_DASH);
                    append_bytes(&mut self.pname, pid.as_slice());
                    proof {
                        assert(self@.pname =~= b0 + seq![B_DASH] + pid@);
                    }
                }
                proof {
                    assert(self@.pname =~= pname_of(comm@, pid@, tid@, old(self)@.opt));
                    let f0 = old(self)@;
                    let tokv = event_token(line@);
                    if tokv.len() > 0 && tokv[tokv.len() - 1] == B_COLON {
                        match f0.event_filter {
                            Some(flt) => {
                                assert(tokv.drop_last() == flt);
                                assert(self@ =~= on_event_line_spec(f0, line@));
                            },
                            None => {
                                assert(self@.event_filter == Some(tokv.drop_last()));
                                assert(self@ =~= on_event_line_spec(f0, line@));
                            },
                        }
                    } else {
                        assert(self@ =~= on_event_line_spec(f0, line@));
                    }
                }
            },
        }
    }

    /// One frame line while inside an event.
    pub fn on_stack_line(&mut self, line: &[u8])
        requires
            old(self)@.cache_line.len() == 0,
        ensures
            final(self)@ == on_stack_line_spec(old(self)@, line@),
            final(self)@.cache_line.len() == 0,
    {
        if self.skip_stack {
            return ;
        }
        match Self::stack_line_parts(line) {
            None => {},
            Some((pc, rawfunc0, module)) => {
                let rawfunc = strip_offset(rawfunc0.as_slice());
                if rawfunc.len() > 0 && rawfunc[0] == B_LPAREN {
                    return ;
                }
                let dm: Vec<u8> = if self.opt.demangle {
                    demangle_bytes(rawfunc.as_slice())
                } else {
                    fix_partially_demangled_rust_symbol(rawfunc.as_slice())
                };
                let pieces = split_arrow_exec(dm.as_slice());
                let jv = mk_java();
                let java = bytes_eq(self.pname.as_slice(), jv.as_slice());
                let ghost frames = line_frames(
                    views_of(pieces@),
                    module@,
                    pc@,
                    self@.opt,
                    java,
                );
                let mut i: usize = 0;
                proof {
                    assert(frames.take(0int) =~~= self@.cache_line);
                    assert(self@ =~~= (FolderV { cache_line: frames.take(0int), ..old(self)@ }));
                }
                while i < pieces.len()
                    invariant
                        i <= pieces@.len(),
                        java == (self@.pname == lit_java()),
                        frames == line_frames(views_of(pieces@), module@, pc@, self@.opt, java),
                        frames.len() == pieces@.len(),
                        self@ == (FolderV { cache_line: frames.take(i as int), ..old(self)@ }),
                    decreases pieces@.len() - i,
                {
                    proof {
                        assert(frames.take(i as int).len() == i);
                        assert(self@.cache_line == frames.take(i as int));
                        assert(self@.cache_line.len() == i as int);
                    }
                    let inlined = self.cache_line.len() > 0;
                    let nf = normalize_frame(
                        pieces[i].as_slice(),
                        module.as_slice(),
                        pc.as_slice(),
                        self.opt.include_addrs,
                        self.opt.annotate_kernel,
                        self.opt.annotate_jit,
                        java,
                        inlined,
                    );
                    self.cache_line.push(nf);
                    proof {
                        assert(self@.cache_line.len() == i + 1);
                        assert(views_of(pieces@)[i as int] == pieces@[i as int]@);
                        assert(frames[i as int] == normalize_frame_spec(
                            pieces@[i as int]@,
                            module@,
                            pc@,
                            self@.opt.include_addrs,
                            self@.opt.annotate_kernel,
                            self@.opt.annotate_jit,
                            java,
                            i > 0,
                        ));
                        assert(inlined == (i > 0));
                        assert(self@.cache_line[i as int] == nf@);
                        assert(nf@ == frames[i as int]);
                        assert(self@.cache_line =~~= frames.take(i + 1));
                        assert(self@ =~~= (FolderV {
                            cache_line: frames.take(i + 1),
                            ..old(self)@
                        }));
                    }
                    i = i + 1;
                }
                proof {
                    assert(frames.take(pieces@.len() as int) =~~= frames);
                    assert(frames.skip(frames.len() as int) =~~= Seq::<Seq<u8>>::empty());
                    assert(self@.stack =~~= frames.skip(self@.cache_line.len() as int) + old(self)@.stack);
                    assert(self@ =~~= (FolderV {
                        cache_line: frames.take(self@.cache_line.len() as int),
                        stack: frames.skip(self@.cache_line.len() as int) + old(self)@.stack,
                        ..old(self)@
                    }));
                }
                loop
                    invariant
                        frames.len() >= self@.cache_line.len(),
                        self@ == (FolderV {
                            cache_line: frames.take(self@.cache_line.len() as int),
                            stack: frames.skip(self@.cache_line.len() as int) + old(self)@.stack,
                            ..old(self)@
                        }),
                    ensures
                        self@ == (FolderV {
                            cache_line: frames.take(0int),
                            stack: frames.skip(0int) + old(self)@.stack,
                            ..old(self)@
                        }),
                    decreases self@.cache_line.len(),
                {
                    let m = self.cache_line.len();
                    if m == 0 {
                        break ;
                    }
                    proof {
                        assert(self@.cache_line == frames.take(m as int));
                        assert(frames.take(m as int).len() == m);
                        assert(0 < m <= frames.len());
                        assert(self@.cache_line[m - 1] == frames[m - 1]);
                        assert(self@.stack == frames.skip(m as int) + old(self)@.stack);
                    }
                    let ghost pre_stack = self@.stack;
                    match self.cache_line.pop() {
                        Some(fr) => {
                            proof {
                                assert(fr@ == frames[m - 1]);
                                assert(self@.cache_line =~~= frames.take(m - 1));
                            }
                            self.stack.insert(0, fr);
                            proof {
                                assert(self@.stack =~~= seq![fr@] + pre_stack);
                                assert(frames.skip(m - 1) =~~= seq![frames[m - 1]] + frames.skip(
                                    m as int,
                                ));
                                assert(self@.stack =~~= frames.skip(m - 1) + old(self)@.stack);
                                assert(self@ =~~= (FolderV {
                                    cache_line: frames.take(m - 1),
                                    stack: frames.skip(m - 1) + old(self)@.stack,
                                    ..old(self)@
                                }));
                            }
                        },
                        None => {
                            proof {
                                assert(false);
                            }
                        },
                    }
                }
                proof {
                    assert(frames.skip(0) =~~= frames);
                    assert(frames.take(0) =~~= old(self)@.cache_line);
                    assert(self@.stack =~~= frames + old(self)@.stack);
                    assert(views_of(pieces@) == split_arrow(dm@));
                    assert(rawfunc@ == strip_offset_spec(rawfunc0@));
                    assert(dm@ == (if old(self)@.opt.demangle {
                        demangled(rawfunc@)
                    } else {
                        fix_rust_spec(rawfunc@)
                    }));
                    assert(stack_line_parts_spec(line@) == Some((pc@, rawfunc0@, module@)));
                    assert(frames == line_frames(
                        split_arrow(dm@),
                        module@,
                        pc@,
                        old(self)@.opt,
                        old(self)@.pname == lit_java(),
                    ));
                    assert(self@ =~~= on_stack_line_spec(old(self)@, line@));
                }
            },
        }
    }

    /// The blank line (or end of input) completing an event.
    pub fn after_event(&mut self, occ: &mut Occurrences)
        requires
            old(occ).wf(),
        ensures
            final(occ).wf(),
            final(self)@ == after_event_spec(old(self)@).0,
            match after_event_spec(old(self)@).1 {
                Some(st) => (final(occ).keys(), final(occ).counts()) == occ_add(
                    old(occ).keys(),
                    old(occ).counts(),
                    st,
                    1,
                ),
                None => *final(occ) == *old(occ),
            },
    {
        if !self.skip_stack {
            let mut s: Vec<u8> = Vec::new();
            append_bytes(&mut s, self.pname.as_slice());
            let mut i: usize = 0;
            while i < self.stack.len()
                invariant
                    i <= self@.stack.len(),
                    s@ + joined_from(self@.stack, i as int) == stack_str(
                        self@.pname,
                        self@.stack,
                    ),
                    self@ == old(self)@,
                decreases self@.stack.len() - i,
            {
                let ghost before = s@;
                s.push(B_SEMI);
                append_bytes(&mut s, self.stack[i].as_slice());
                proof {
                    assert(s@ =~= before + (seq![B_SEMI] + self@.stack[i as int]));
                    assert(s@ + joined_from(self@.stack, i + 1) =~= before + joined_from(
                        self@.stack,
                        i as int,
                    ));
                }
                i = i + 1;
            }
            occ.insert_or_add(s, 1);
        }
        self.in_event = false;
        self.skip_stack = false;
        self.stack.clear();
        proof {
            assert(self@.stack =~= Seq::<Seq<u8>>::empty());
            assert(self@ =~= after_event_spec(old(self)@).0);
        }
    }
}

// ---------------------------------------------------------------------------
// Running the machine over a line stream.
// ---------------------------------------------------------------------------

/// Failure of a collapse run's own invariants.
#[derive(Clone, Copy, Debug, PartialEq, Eq, Structural)]
pub enum CollapseError {
    /// The bootstrap stack held a header from which no event type could be
    /// derived, so no consistent filter exists for the rest of the run.
    AmbiguousEventFilter,
}

pub open spec fn is_comment(rawline: Seq<u8>) -> bool {
    rawline.len() > 0 && rawline[0] == crate::bytes::B_HASH
}

/// This raw line, fed to state `f`, completes the current stack.
pub open spec fn ends_stack(f: FolderV, rawline: Seq<u8>) -> bool {
    !is_comment(rawline) && trim_end_spec(rawline).len() == 0 && f.in_event
}

pub open spec fn opt_seq(e: Option<Seq<u8>>) -> Seq<Seq<u8>> {
    match e {
        Some(s) => seq![s],
        None => Seq::empty(),
    }
}

/// One line of input: next state and the stack it emits, if any.
pub open spec fn step_line_spec(f: FolderV, rawline: Seq<u8>) -> (FolderV, Option<Seq<u8>>) {
    if is_comment(rawline) {
        (f, None)
    } else {
        let line = trim_end_spec(rawline);
        if line.len() == 0 {
            if f.in_event {
                after_event_spec(f)
            } else {
                (f, None)
            }
        } else if f.in_event {
            (on_stack_line_spec(f, line), None)
        } else {
            (on_event_line_spec(f, line), None)
        }
    }
}

/// State after the lines `[i, j)`.
pub open spec fn run_state(f: FolderV, lines: Seq<Seq<u8>>, i: int, j: int) -> FolderV
    decreases j - i,
{
    if i < 0 || i >= j || j > lines.len() {
        f
    } else {
        run_state(step_line_spec(f, lines[i]).0, lines, i + 1, j)
    }
}

/// Stacks emitted over the lines `[i, j)`, in order.
pub open spec fn run_emits(f: FolderV, lines: Seq<Seq<u8>>, i: int, j: int) -> Seq<Seq<u8>>
    decreases j - i,
{
    if i < 0 || i >= j || j > lines.len() {
        Seq::empty()
    } else {
        opt_seq(step_line_spec(f, lines[i]).1) + run_emits(
            step_line_spec(f, lines[i]).0,
            lines,
            i + 1,
            j,
        )
    }
}

/// The end-of-input flush: a pending stack is completed as a blank line
/// would complete it.
pub open spec fn flush_emit(f: FolderV) -> Option<Seq<u8>> {
    if f.in_event {
        after_event_spec(f).1
    } else {
        None
    }
}

pub open spec fn flush_state(f: FolderV) -> FolderV {
    FolderV { in_event: false, skip_stack: false, stack: Seq::empty(), ..f }
}

/// Full single-threaded pass over `[i, j)` with the final flush.
pub open spec fn collapse_state(f: FolderV, lines: Seq<Seq<u8>>, i: int, j: int) -> FolderV {
    flush_state(run_state(f, lines, i, j))
}

pub open spec fn collapse_emits(f: FolderV, lines: Seq<Seq<u8>>, i: int, j: int) -> Seq<Seq<u8>> {
    run_emits(f, lines, i, j) + opt_seq(flush_emit(run_state(f, lines, i, j)))
}

/// Index just past the first stack completed at or after `i` (bounded by
/// `j`): where a bootstrap pass stops.
pub open spec fn one_stack_end(f: FolderV, lines: Seq<Seq<u8>>, i: int, j: int) -> int
    decreases j - i,
{
    if i < 0 || i >= j || j > lines.len() {
        j
    } else if ends_stack(f, lines[i]) {
        i + 1
    } else {
        one_stack_end(step_line_spec(f, lines[i]).0, lines, i + 1, j)
    }
}

/// Whether that pass ran out of input without completing a stack.
pub open spec fn one_stack_eof(f: FolderV, lines: Seq<Seq<u8>>, i: int, j: int) -> bool
    decreases j - i,
{
    if i < 0 || i >= j || j > lines.len() {
        true
    } else if ends_stack(f, lines[i]) {
        false
    } else {
        one_stack_eof(step_line_spec(f, lines[i]).0, lines, i + 1, j)
    }
}

/// A bootstrap pass that hit the end of input consumed everything.
pub proof fn lemma_one_stack_eof_end(f: FolderV, lines: Seq<Seq<u8>>, i: int, j: int)
    requires
        one_stack_eof(f, lines, i, j),
    ensures
        one_stack_end(f, lines, i, j) == j,
    decreases j - i,
{
    if !(i < 0 || i >= j || j > lines.len()) {
        lemma_one_stack_eof_end(step_line_spec(f, lines[i]).0, lines, i + 1, j);
    }
}

/// A bootstrap pass over a nonempty range consumes at least one line.
pub proof fn lemma_one_stack_end_lb(f: FolderV, lines: Seq<Seq<u8>>, i: int, j: int)
    requires
        0 <= i < j <= lines.len(),
    ensures
        i + 1 <= one_stack_end(f, lines, i, j) <= j,
    decreases j - i,
{
    if !ends_stack(f, lines[i]) {
        if i + 1 < j {
            lemma_one_stack_end_lb(step_line_spec(f, lines[i]).0, lines, i + 1, j);
        } else {
            assert(one_stack_end(step_line_spec(f, lines[i]).0, lines, i + 1, j) == j);
        }
    }
}

/// One step preserves the parser's structural invariant.
pub proof fn lemma_step_inv(f: FolderV, rawline: Seq<u8>)
    requires
        folder_inv(f),
    ensures
        folder_inv(step_line_spec(f, rawline).0),
{
}

/// Appending one more line to a run.
pub proof fn lemma_run_snoc(f: FolderV, lines: Seq<Seq<u8>>, i: int, j: int)
    requires
        0 <= i <= j < lines.len(),
    ensures
        run_state(f, lines, i, j + 1) == step_line_spec(run_state(f, lines, i, j), lines[j]).0,
        run_emits(f, lines, i, j + 1) =~= run_emits(f, lines, i, j) + opt_seq(
            step_line_spec(run_state(f, lines, i, j), lines[j]).1,
        ),
    decreases j - i,
{
    let g = step_line_spec(f, lines[i]).0;
    if i < j {
        lemma_run_snoc(g, lines, i + 1, j);
        assert(run_state(f, lines, i, j + 1) == run_state(g, lines, i + 1, j + 1));
        assert(run_state(f, lines, i, j) == run_state(g, lines, i + 1, j));
        assert(run_emits(f, lines, i, j + 1) =~= run_emits(f, lines, i, j) + opt_seq(
            step_line_spec(run_state(f, lines, i, j), lines[j]).1,
        ));
    } else {
        assert(run_state(f, lines, i, i) == f);
        assert(run_state(f, lines, i, i + 1) == run_state(g, lines, i + 1, i + 1));
        assert(run_state(g, lines, i + 1, i + 1) == g);
        assert(run_emits(f, lines, i, i) =~= Seq::<Seq<u8>>::empty());
        assert(run_emits(g, lines, i + 1, i + 1) =~= Seq::<Seq<u8>>::empty());
        assert(run_emits(f, lines, i, i + 1) =~= opt_seq(step_line_spec(f, lines[i]).1));
        assert(run_emits(f, lines, i, i + 1) =~= run_emits(f, lines, i, i) + opt_seq(
            step_line_spec(run_state(f, lines, i, i), lines[i]).1,
        ));
    }
}

/// A run splits at any midpoint.
pub proof fn lemma_run_split(f: FolderV, lines: Seq<Seq<u8>>, i: int, k: int, j: int)
    requires
        0 <= i <= k <= j <= lines.len(),
    ensures
        run_state(f, lines, i, j) == run_state(run_state(f, lines, i, k), lines, k, j),
        run_emits(f, lines, i, j) =~= run_emits(f, lines, i, k) + run_emits(
            run_state(f, lines, i, k),
            lines,
            k,
            j,
        ),
    decreases k - i,
{
    if i < k {
        lemma_run_split(step_line_spec(f, lines[i]).0, lines, i + 1, k, j);
        assert(run_emits(f, lines, i, j) =~= run_emits(f, lines, i, k) + run_emits(
            run_state(f, lines, i, k),
            lines,
            k,
            j,
        ));
    } else {
        assert(run_emits(f, lines, i, i) =~= Seq::<Seq<u8>>::empty());
        assert(run_emits(f, lines, i, j) =~= run_emits(f, lines, i, i) + run_emits(
            f,
            lines,
            i,
            j,
        ));
    }
}

/// The invariant holds after any run.
pub proof fn lemma_run_inv(f: FolderV, lines: Seq<Seq<u8>>, i: int, j: int)
    requires
        folder_inv(f),
    ensures
        folder_inv(run_state(f, lines, i, j)),
    decreases j - i,
{
    if !(i < 0 || i >= j || j > lines.len()) {
        lemma_step_inv(f, lines[i]);
        lemma_run_inv(step_line_spec(f, lines[i]).0, lines, i + 1, j);
    }
}

/// Counting stacks distributes over appending one more stack.
pub proof fn lemma_add_stacks_snoc(
    ks: Seq<Seq<u8>>,
    cs: Seq<u64>,
    stacks: Seq<Seq<u8>>,
    s: Seq<u8>,
    i: int,
)
    requires
        0 <= i <= stacks.len(),
    ensures
        crate::occur::add_stacks_from(ks, cs, stacks.push(s), i) == ({
            let p = crate::occur::add_stacks_from(ks, cs, stacks, i);
            occ_add(p.0, p.1, s, 1)
        }),
    decreases stacks.len() - i,
{
    if i < stacks.len() {
        assert(stacks.push(s)[i] == stacks[i]);
        let next = occ_add(ks, cs, stacks[i], 1);
        lemma_add_stacks_snoc(next.0, next.1, stacks, s, i + 1);
        assert(crate::occur::add_stacks_from(ks, cs, stacks.push(s), i)
            == crate::occur::add_stacks_from(next.0, next.1, stacks.push(s), i + 1));
        assert(crate::occur::add_stacks_from(ks, cs, stacks, i)
            == crate::occur::add_stacks_from(next.0, next.1, stacks, i + 1));
    } else {
        assert(stacks.push(s)[i] == s);
        let nx = occ_add(ks, cs, s, 1);
        assert(crate::occur::add_stacks_from(ks, cs, stacks.push(s), i)
            == crate::occur::add_stacks_from(nx.0, nx.1, stacks.push(s), i + 1));
        assert(crate::occur::add_stacks_from(nx.0, nx.1, stacks.push(s), i + 1) == nx);
        assert(crate::occur::add_stacks_from(ks, cs, stacks, i) == (ks, cs));
    }
}

/// Counting stacks distributes over concatenation.
pub proof fn lemma_add_stacks_concat(
    ks: Seq<Seq<u8>>,
    cs: Seq<u64>,
    e1: Seq<Seq<u8>>,
    e2: Seq<Seq<u8>>,
)
    ensures
        crate::occur::add_stacks_from(ks, cs, e1 + e2, 0) == ({
            let p = crate::occur::add_stacks_from(ks, cs, e1, 0);
            crate::occur::add_stacks_from(p.0, p.1, e2, 0)
        }),
    decreases e2.len(),
{
    let p = crate::occur::add_stacks_from(ks, cs, e1, 0);
    if e2.len() == 0 {
        assert(e1 + e2 =~= e1);
        assert(crate::occur::add_stacks_from(p.0, p.1, e2, 0) == p);
    } else {
        let e2h = e2.drop_last();
        lemma_add_stacks_concat(ks, cs, e1, e2h);
        let q = crate::occur::add_stacks_from(ks, cs, e1 + e2h, 0);
        lemma_add_stacks_snoc(ks, cs, e1 + e2h, e2.last(), 0);
        assert((e1 + e2h).push(e2.last()) =~= e1 + e2);
        let r = crate::occur::add_stacks_from(p.0, p.1, e2h, 0);
        lemma_add_stacks_snoc(p.0, p.1, e2h, e2.last(), 0);
        assert(e2h.push(e2.last()) =~= e2);
    }
}

impl Folder {
    /// Feed one raw line to the state machine. Returns whether this line
    /// completed the current stack.
    pub fn process_line(&mut self, rawline: &[u8], occ: &mut Occurrences) -> (ended: bool)
        requires
            old(self)@.cache_line.len() == 0,
            old(occ).wf(),
        ensures
            final(self)@.cache_line.len() == 0,
            final(occ).wf(),
            ended == ends_stack(old(self)@, rawline@),
            final(self)@ == step_line_spec(old(self)@, rawline@).0,
            (final(occ).keys(), final(occ).counts())
                == crate::occur::add_stacks_from(
                old(occ).keys(),
                old(occ).counts(),
                opt_seq(step_line_spec(old(self)@, rawline@).1),
                0,
            ),
    {
        if rawline.len() > 0 && rawline[0] == crate::bytes::B_HASH {
            proof {
                assert(crate::occur::add_stacks_from(
                    old(occ).keys(),
                    old(occ).counts(),
                    Seq::<Seq<u8>>::empty(),
                    0,
                ) == (old(occ).keys(), old(occ).counts()));
            }
            return false;
        }
        let e = crate::bytes::trim_end_idx(rawline);
        let trimmed = subvec(rawline, 0, e);
        if trimmed.len() == 0 {
            if self.in_event {
                self.after_event(occ);
                proof {
                    let em = after_event_spec(old(self)@).1;
                    let k0 = old(occ).keys();
                    let c0 = old(occ).counts();
                    match em {
                        Some(st) => {
                            assert(opt_seq(em) =~= seq![st]);
                            assert(opt_seq(em)[0] == st);
                            let p = occ_add(k0, c0, st, 1);
                            assert(crate::occur::add_stacks_from(k0, c0, opt_seq(em), 0)
                                == crate::occur::add_stacks_from(p.0, p.1, opt_seq(em), 1));
                            assert(crate::occur::add_stacks_from(p.0, p.1, opt_seq(em), 1) == p);
                        },
                        None => {
                            assert(crate::occur::add_stacks_from(k0, c0, opt_seq(em), 0) == (
                                k0,
                                c0,
                            ));
                        },
                    }
                }
                return true;
            }
            proof {
                assert(crate::occur::add_stacks_from(
                    old(occ).keys(),
                    old(occ).counts(),
                    Seq::<Seq<u8>>::empty(),
                    0,
                ) == (old(occ).keys(), old(occ).counts()));
            }
            return false;
        }
        if self.in_event {
            self.on_stack_line(trimmed.as_slice());
        } else {
            self.on_event_line(trimmed.as_slice());
        }
        proof {
            assert(crate::occur::add_stacks_from(
                old(occ).keys(),
                old(occ).counts(),
                Seq::<Seq<u8>>::empty(),
                0,
            ) == (old(occ).keys(), old(occ).counts()));
        }
        false
    }

    /// Process lines until the current stack completes or `end` is reached;
    /// `true` means the input (up to `end`) is exhausted.
    pub fn process_single_stack(
        &mut self,
        lines: &Vec<Vec<u8>>,
        end: usize,
        pos: &mut usize,
        occ: &mut Occurrences,
    ) -> (r: bool)
        requires
            old(self)@.cache_line.len() == 0,
            old(occ).wf(),
            *old(pos) <= end <= lines@.len(),
        ensures
            final(self)@.cache_line.len() == 0,
            final(occ).wf(),
            *old(pos) <= *final(pos) <= end,
            *final(pos) == one_stack_end(old(self)@, views_of(lines@), *old(pos) as int, end as int),
            r == one_stack_eof(old(self)@, views_of(lines@), *old(pos) as int, end as int),
            final(self)@ == run_state(
                old(self)@,
                views_of(lines@),
                *old(pos) as int,
                *final(pos) as int,
            ),
            (final(occ).keys(), final(occ).counts())
                == crate::occur::add_stacks_from(
                old(occ).keys(),
                old(occ).counts(),
                run_emits(old(self)@, views_of(lines@), *old(pos) as int, *final(pos) as int),
                0,
            ),
    {
        let ghost f0 = old(self)@;
        let ghost lv = views_of(lines@);
        let ghost p0 = *old(pos) as int;
        proof {
            assert(run_emits(f0, lv, p0, p0) =~= Seq::<Seq<u8>>::empty());
            assert((occ.keys(), occ.counts()) == crate::occur::add_stacks_from(
                occ.keys(),
                occ.counts(),
                run_emits(f0, lv, p0, p0),
                0,
            ));
        }
        loop
            invariant
                self@.cache_line.len() == 0,
                occ.wf(),
                *old(pos) <= *pos <= end <= lines@.len(),
                lv == views_of(lines@),
                p0 == *old(pos) as int,
                f0 == old(self)@,
                self@ == run_state(f0, lv, p0, *pos as int),
                one_stack_end(f0, lv, p0, end as int) == one_stack_end(
                    self@,
                    lv,
                    *pos as int,
                    end as int,
                ),
                one_stack_eof(f0, lv, p0, end as int) == one_stack_eof(
                    self@,
                    lv,
                    *pos as int,
                    end as int,
                ),
                (occ.keys(), occ.counts()) == crate::occur::add_stacks_from(
                    old(occ).keys(),
                    old(occ).counts(),
                    run_emits(f0, lv, p0, *pos as int),
                    0,
                ),
            decreases end - *pos,
        {
            if *pos == end {
                proof {
                    assert(one_stack_end(self@, lv, *pos as int, end as int) == end as int);
                    assert(one_stack_eof(self@, lv, *pos as int, end as int));
                }
                return true;
            }
            let i: usize = *pos;
            proof {
                assert(lv[i as int] == lines@[i as int]@);
            }
            let ghost pre = self@;
            let ghost pre_occ_k = occ.keys();
            let ghost pre_occ_c = occ.counts();
            let ended = self.process_line(lines[i].as_slice(), occ);
            *pos = i + 1;
            proof {
                lemma_run_snoc(f0, lv, p0, i as int);
                let em = opt_seq(step_line_spec(pre, lv[i as int]).1);
                assert(run_emits(f0, lv, p0, i + 1) =~= run_emits(f0, lv, p0, i as int) + em);
                lemma_add_stacks_concat(
                    old(occ).keys(),
                    old(occ).counts(),
                    run_emits(f0, lv, p0, i as int),
                    em,
                );
            }
            if ended {
                proof {
                    assert(one_stack_end(pre, lv, i as int, end as int) == i + 1);
                    assert(!one_stack_eof(pre, lv, i as int, end as int));
                }
                return false;
            }
            proof {
                assert(one_stack_end(pre, lv, i as int, end as int) == one_stack_end(
                    self@,
                    lv,
                    i + 1,
                    end as int,
                ));
                assert(one_stack_eof(pre, lv, i as int, end as int) == one_stack_eof(
                    self@,
                    lv,
                    i + 1,
                    end as int,
                ));
            }
        }
    }
}


// ---------------------------------------------------------------------------
// Whole passes, bootstrap, and configuration plumbing.
// ---------------------------------------------------------------------------

/// Stacks handed to one worker at a time, unless configured otherwise.
pub const DEFAULT_NSTACKS_PER_JOB: usize = 100;

/// The options a run actually uses: zero workers become one, and asking for
/// thread ids implies including process ids.
pub open spec fn norm_opts(o: OptionsV) -> OptionsV {
    OptionsV {
        nthreads: if o.nthreads == 0 {
            1
        } else {
            o.nthreads
        },
        include_pid: o.include_pid || o.include_tid,
        ..o
    }
}

/// The collapser a fresh configuration yields.
pub open spec fn folder_of(o: OptionsV) -> FolderV {
    FolderV {
        cache_line: Seq::empty(),
        event_filter: o.event_filter,
        in_event: false,
        nstacks_per_job: DEFAULT_NSTACKS_PER_JOB as int,
        pname: Seq::empty(),
        skip_stack: false,
        stack: Seq::empty(),
        opt: norm_opts(o),
    }
}

/// A worker's copy: shared filter and configuration, fresh transient state.
pub open spec fn reset_ctx(f: FolderV) -> FolderV {
    FolderV {
        cache_line: Seq::empty(),
        in_event: false,
        pname: Seq::empty(),
        skip_stack: false,
        stack: Seq::empty(),
        ..f
    }
}

impl Clone for Options {
    fn clone(&self) -> (r: Options)
        ensures
            r@ == self@,
    {
        let r = Options {
            annotate_jit: self.annotate_jit,
            annotate_kernel: self.annotate_kernel,
            demangle: self.demangle,
            event_filter: match &self.event_filter {
                Some(v) => Some(subvec(v.as_slice(), 0, v.len())),
                None => None,
            },
            include_addrs: self.include_addrs,
            include_pid: self.include_pid,
            include_tid: self.include_tid,
            nthreads: self.nthreads,
        };
        proof {
            assert(r@ =~~= self@);
        }
        r
    }
}

impl Folder {
    /// Build a collapser from a configuration.
    pub fn from(opt: Options) -> (r: Folder)
        ensures
            r@ == folder_of(opt@),
            stack_ctx_fresh(r@),
    {
        let ghost o0 = opt@;
        let mut opt = opt;
        if opt.nthreads == 0 {
            opt.nthreads = 1;
        }
        opt.include_pid = opt.include_pid || opt.include_tid;
        let filter: Option<Vec<u8>> = match &opt.event_filter {
            Some(v) => Some(subvec(v.as_slice(), 0, v.len())),
            None => None,
        };
        let r = Folder {
            cache_line: Vec::new(),
            event_filter: filter,
            in_event: false,
            nstacks_per_job: DEFAULT_NSTACKS_PER_JOB,
            pname: Vec::new(),
            skip_stack: false,
            stack: Vec::new(),
            opt,
        };
        proof {
            assert(r@ =~~= folder_of(o0));
        }
        r
    }

    /// One pass over the lines `[start, end)`, with the end-of-input flush
    /// and a reset of the transient stack-building state.
    pub fn collapse_single_threaded(
        &mut self,
        lines: &Vec<Vec<u8>>,
        start: usize,
        end: usize,
        occ: &mut Occurrences,
    )
        requires
            folder_inv(old(self)@),
            old(occ).wf(),
            start <= end <= lines@.len(),
        ensures
            folder_inv(final(self)@),
            stack_ctx_fresh(final(self)@),
            final(occ).wf(),
            final(self)@ == collapse_state(old(self)@, views_of(lines@), start as int, end as int),
            (final(occ).keys(), final(occ).counts()) == crate::occur::add_stacks_from(
                old(occ).keys(),
                old(occ).counts(),
                collapse_emits(old(self)@, views_of(lines@), start as int, end as int),
                0,
            ),
    {
        let ghost f0 = old(self)@;
        let ghost lv = views_of(lines@);
        let mut pos: usize = start;
        let mut done: bool = false;
        proof {
            assert(run_emits(f0, lv, start as int, start as int) =~= Seq::<Seq<u8>>::empty());
            assert(crate::occur::add_stacks_from(
                old(occ).keys(),
                old(occ).counts(),
                Seq::<Seq<u8>>::empty(),
                0,
            ) == (old(occ).keys(), old(occ).counts()));
        }
        while !done
            invariant
                f0 == old(self)@,
                lv == views_of(lines@),
                self@.cache_line.len() == 0,
                occ.wf(),
                start <= pos <= end <= lines@.len(),
                self@ == run_state(f0, lv, start as int, pos as int),
                (occ.keys(), occ.counts()) == crate::occur::add_stacks_from(
                    old(occ).keys(),
                    old(occ).counts(),
                    run_emits(f0, lv, start as int, pos as int),
                    0,
                ),
                done ==> pos == end,
            decreases end - pos + (if done {
                0int
            } else {
                1int
            }),
        {
            let ghost pre = self@;
            let ghost prepos = pos as int;
            let r = self.process_single_stack(lines, end, &mut pos, occ);
            proof {
                lemma_run_split(f0, lv, start as int, prepos, pos as int);
                lemma_add_stacks_concat(
                    old(occ).keys(),
                    old(occ).counts(),
                    run_emits(f0, lv, start as int, prepos),
                    run_emits(pre, lv, prepos, pos as int),
                );
            }
            proof {
                if r {
                    lemma_one_stack_eof_end(pre, lv, prepos, end as int);
                } else {
                    if prepos < end {
                        lemma_one_stack_end_lb(pre, lv, prepos, end as int);
                    } else {
                        assert(one_stack_eof(pre, lv, prepos, end as int));
                    }
                }
            }
            if r {
                done = true;
            }
        }
        proof {
            lemma_run_inv(f0, lv, start as int, end as int);
        }
        let ghost fe = self@;
        if self.in_event {
            self.after_event(occ);
            proof {
                assert(opt_seq(flush_emit(fe)) =~= opt_seq(after_event_spec(fe).1));
            }
        } else {
            self.skip_stack = false;
            self.stack.clear();
        }
        proof {
            assert(self@.stack =~= Seq::<Seq<u8>>::empty());
            assert(self@.cache_line =~= Seq::<Seq<u8>>::empty());
            assert(self@ =~~= flush_state(fe));
            let re = run_emits(f0, lv, start as int, end as int);
            let fl = opt_seq(flush_emit(fe));
            lemma_add_stacks_concat(old(occ).keys(), old(occ).counts(), re, fl);
            assert(collapse_emits(f0, lv, start as int, end as int) =~= re + fl);
            let p = crate::occur::add_stacks_from(old(occ).keys(), old(occ).counts(), re, 0);
            match flush_emit(fe) {
                Some(st) => {
                    assert(fl =~= seq![st]);
                    assert(fl[0] == st);
                    let q = occ_add(p.0, p.1, st, 1);
                    assert(crate::occur::add_stacks_from(p.0, p.1, fl, 0)
                        == crate::occur::add_stacks_from(q.0, q.1, fl, 1));
                    assert(crate::occur::add_stacks_from(q.0, q.1, fl, 1) == q);
                },
                None => {
                    assert(fl =~= Seq::<Seq<u8>>::empty());
                    assert(crate::occur::add_stacks_from(p.0, p.1, fl, 0) == p);
                },
            }
        }
    }

    /// The single-threaded bootstrap: when no filter is configured, process
    /// exactly one stack so that the first event type fixes the filter that
    /// all workers will share. Fails when that stack yields no filter.
    pub fn pre_process(
        &mut self,
        lines: &Vec<Vec<u8>>,
        pos: &mut usize,
        occ: &mut Occurrences,
    ) -> (r: Result<(), CollapseError>)
        requires
            old(self)@.cache_line.len() == 0,
            old(occ).wf(),
            *old(pos) <= lines@.len(),
        ensures
            final(self)@.cache_line.len() == 0,
            final(occ).wf(),
            *old(pos) <= *final(pos) <= lines@.len(),
            old(self)@.event_filter is Some ==> {
                &&& final(self)@ == old(self)@
                &&& *final(pos) == *old(pos)
                &&& *final(occ) == *old(occ)
                &&& r is Ok
            },
            old(self)@.event_filter is None ==> {
                let lv = views_of(lines@);
                let e = one_stack_end(old(self)@, lv, *old(pos) as int, lv.len() as int);
                &&& *final(pos) == e
                &&& final(self)@ == run_state(old(self)@, lv, *old(pos) as int, e)
                &&& (final(occ).keys(), final(occ).counts()) == crate::occur::add_stacks_from(
                    old(occ).keys(),
                    old(occ).counts(),
                    run_emits(old(self)@, lv, *old(pos) as int, e),
                    0,
                )
                &&& (r is Ok <==> (final(self)@.event_filter is Some || (one_stack_eof(
                    old(self)@,
                    lv,
                    *old(pos) as int,
                    lv.len() as int,
                ) && !final(self)@.in_event)))
            },
    {
        if self.event_filter.is_some() {
            return Ok(());
        }
        let n = lines.len();
        let r = self.process_single_stack(lines, n, pos, occ);
        if self.event_filter.is_some() {
            return Ok(());
        }
        if r && !self.in_event {
            return Ok(());
        }
        Err(CollapseError::AmbiguousEventFilter)
    }

    /// Whether this line would complete the current stack: every byte is
    /// whitespace, which is exactly a line that trims to nothing.
    pub fn would_end_stack(&self, line: &[u8]) -> (r: bool)
        ensures
            r == crate::bytes::all_ws(line@),
            r == (trim_end_spec(line@).len() == 0),
    {
        proof {
            crate::bytes::lemma_trim_end_empty_iff_all_ws(line@);
        }
        let mut i: usize = 0;
        while i < line.len()
            invariant
                i <= line@.len(),
                forall|j: int| 0 <= j < i ==> crate::bytes::is_ws(line@[j]),
            decreases line@.len() - i,
        {
            if !byte_is_ws(line[i]) {
                proof {
                    crate::bytes::lemma_trim_end_empty_iff_all_ws(line@);
                }
                return false;
            }
            i = i + 1;
        }
        true
    }

    /// An independent worker copy: same filter and configuration, fresh
    /// stack-building state.
    pub fn clone_and_reset_stack_context(&self) -> (r: Folder)
        ensures
            r@ == reset_ctx(self@),
            stack_ctx_fresh(r@),
    {
        let r = Folder {
            cache_line: Vec::new(),
            event_filter: match &self.event_filter {
                Some(v) => Some(subvec(v.as_slice(), 0, v.len())),
                None => None,
            },
            in_event: false,
            nstacks_per_job: self.nstacks_per_job,
            pname: Vec::new(),
            skip_stack: false,
            stack: Vec::new(),
            opt: self.opt.clone(),
        };
        proof {
            assert(r@ =~~= reset_ctx(self@));
        }
        r
    }

    pub fn nstacks_per_job(&self) -> (n: usize)
        ensures
            n as int == self@.nstacks_per_job,
    {
        self.nstacks_per_job
    }

    /// A degenerate job size of zero is treated as one.
    pub fn set_nstacks_per_job(&mut self, n: usize)
        ensures
            final(self)@ == (FolderV {
                nstacks_per_job: if n == 0 {
                    1int
                } else {
                    n as int
                },
                ..old(self)@
            }),
    {
        self.nstacks_per_job = if n == 0 {
            1
        } else {
            n
        };
        proof {
            assert(self@ =~~= (FolderV {
                nstacks_per_job: self@.nstacks_per_job,
                ..old(self)@
            }));
        }
    }

    pub fn nthreads(&self) -> (n: usize)
        ensures
            n as int == self@.opt.nthreads,
    {
        self.opt.nthreads
    }

    /// A thread count of zero is treated as one.
    pub fn set_nthreads(&mut self, n: usize)
        ensures
            final(self)@ == (FolderV {
                opt: OptionsV {
                    nthreads: if n == 0 {
                        1int
                    } else {
                        n as int
                    },
                    ..old(self)@.opt
                },
                ..old(self)@
            }),
    {
        self.opt.nthreads = if n == 0 {
            1
        } else {
            n
        };
        proof {
            assert(self@ =~~= (FolderV {
                opt: OptionsV { nthreads: self@.opt.nthreads, ..old(self)@.opt },
                ..old(self)@
            }));
        }
    }
}

impl Default for Folder {
    fn default() -> (r: Folder)
        ensures
            r@ == folder_of(
                OptionsV {
                    annotate_jit: false,
                    annotate_kernel: false,
                    demangle: false,
                    event_filter: None,
                    include_addrs: false,
                    include_pid: false,
                    include_tid: false,
                    nthreads: 1,
                },
            ),
            stack_ctx_fresh(r@),
    {
        Folder::from(Options::with_defaults())
    }
}

// ---------------------------------------------------------------------------
// Format detection.
// ---------------------------------------------------------------------------

/// The detector's walk: skip comments, a blank line resets, the first
/// substantive line must be a header and the line after it a frame line.
pub open spec fn is_applicable_spec(lines: Seq<Seq<u8>>, i: int, last_was_event: bool) -> Option<
    bool,
>
    decreases lines.len() - i,
{
    if i < 0 || i >= lines.len() {
        None
    } else {
        let t = crate::bytes::trim_spec(lines[i]);
        if t.len() > 0 && t[0] == crate::bytes::B_HASH {
            is_applicable_spec(lines, i + 1, last_was_event)
        } else if t.len() == 0 {
            is_applicable_spec(lines, i + 1, false)
        } else if last_was_event {
            Some(stack_line_parts_spec(t) is Some)
        } else if event_line_parts_spec(t) is None {
            Some(false)
        } else {
            is_applicable_spec(lines, i + 1, true)
        }
    }
}

impl Folder {
    /// Inspect a prefix of input: `Some(true)` when it looks like this
    /// profiler's output, `Some(false)` when it cannot be, `None` when the
    /// input ended before the question was settled.
    pub fn is_applicable(&self, input: &[u8]) -> (r: Option<bool>)
        ensures
            r == is_applicable_spec(crate::bytes::split_lines_spec(input@), 0, false),
    {
        let lines = crate::bytes::split_lines(input);
        let ghost lv = Seq::new(lines@.len(), |i: int| lines@[i]@);
        let mut i: usize = 0;
        let mut last_was_event: bool = false;
        while i < lines.len()
            invariant
                i <= lines@.len(),
                lv == Seq::new(lines@.len(), |k: int| lines@[k]@),
                lv == crate::bytes::split_lines_spec(input@),
                is_applicable_spec(lv, 0, false) == is_applicable_spec(
                    lv,
                    i as int,
                    last_was_event,
                ),
            decreases lines@.len() - i,
        {
            let raw = lines[i].as_slice();
            let te = crate::bytes::trim_end_idx(raw);
            let t0 = subvec(raw, 0, te);
            let ts = trim_start_idx(t0.as_slice());
            let t = subvec(t0.as_slice(), ts, t0.len());
            proof {
                assert(t@ == crate::bytes::trim_spec(lv[i as int]));
            }
            if t.len() > 0 && t[0] == crate::bytes::B_HASH {
            } else if t.len() == 0 {
                last_was_event = false;
            } else if last_was_event {
                return Some(Self::stack_line_parts(t.as_slice()).is_some());
            } else if Self::event_line_parts(t.as_slice()).is_none() {
                return Some(false);
            } else {
                last_was_event = true;
            }
            i = i + 1;
        }
        None
    }
}

} // verus!
