use stackfold::perf::{Folder, Options};

fn opts() -> Options {
    Options {
        annotate_jit: false,
        annotate_kernel: false,
        demangle: false,
        event_filter: None,
        include_addrs: false,
        include_pid: false,
        include_tid: false,
        nthreads: 1,
    }
}

fn collapse_with(options: Options, input: &[u8]) -> Vec<u8> {
    let mut folder = Folder::from(options);
    folder.collapse(input).expect("collapse should succeed")
}

#[test]
fn kernel_stack_without_annotation() {
    let input = b"java 1234 100.0: cycles:\n ffffffff8103ce3b native_safe_halt ([kernel.kallsyms])\n\n";
    let out = collapse_with(opts(), input);
    assert_eq!(out.as_slice(), b"java;native_safe_halt 1\n".as_slice());
}

#[test]
fn kernel_stack_with_annotation() {
    let input = b"java 1234 100.0: cycles:\n ffffffff8103ce3b native_safe_halt ([kernel.kallsyms])\n\n";
    let mut o = opts();
    o.annotate_kernel = true;
    let out = collapse_with(o, input);
    assert_eq!(out.as_slice(), b"java;native_safe_halt_[k] 1\n".as_slice());
}

#[test]
fn first_event_type_wins() {
    let input = b"java 1234 100.0: cycles:\n ffffffff8103ce3b native_safe_halt ([kernel.kallsyms])\n\njava 1234 100.1: instructions:\n ffffffff8103ce3b other_func ([kernel.kallsyms])\n\n";
    let out = collapse_with(opts(), input);
    assert_eq!(out.as_slice(), b"java;native_safe_halt 1\n".as_slice());
}

#[test]
fn preset_filter_excludes_other_events() {
    let input = b"java 1234 100.0: cycles:\n ffffffff8103ce3b native_safe_halt ([kernel.kallsyms])\n\njava 1234 100.1: instructions:\n ffffffff8103ce3b other_func ([kernel.kallsyms])\n\n";
    let mut o = opts();
    o.event_filter = Some(b"instructions".to_vec());
    let out = collapse_with(o, input);
    assert_eq!(out.as_slice(), b"java;other_func 1\n".as_slice());
}

#[test]
fn java_symbols_are_tidied() {
    let input = b"java 1234 100.0: cycles:\n ffff Lcom/example/Foo;.bar(I)V (/tmp/perf-1234.map)\n\n";
    let out = collapse_with(opts(), input);
    assert_eq!(out.as_slice(), b"java;com/example/Foo:.bar 1\n".as_slice());
}

#[test]
fn jit_annotation() {
    let input = b"java 1234 100.0: cycles:\n ffff Lcom/example/Foo;.bar(I)V (/tmp/perf-1234.map)\n\n";
    let mut o = opts();
    o.annotate_jit = true;
    let out = collapse_with(o, input);
    assert_eq!(out.as_slice(), b"java;com/example/Foo:.bar_[j] 1\n".as_slice());
}

#[test]
fn repeated_stacks_are_counted() {
    let one = b"java 1234 100.0: cycles:\n ffffffff8103ce3b native_safe_halt ([kernel.kallsyms])\n\n";
    let mut input = Vec::new();
    for _ in 0..3 {
        input.extend_from_slice(one);
    }
    let out = collapse_with(opts(), &input);
    assert_eq!(out.as_slice(), b"java;native_safe_halt 3\n".as_slice());
}

#[test]
fn include_pid_and_tid() {
    let input = b"java 24636/25607 [000] 4794564.109216: cycles:\n ffffffff8103ce3b native_safe_halt ([kernel.kallsyms])\n\n";
    let mut o = opts();
    o.include_pid = true;
    let out = collapse_with(o, input);
    assert_eq!(out.as_slice(), b"java-24636;native_safe_halt 1\n".as_slice());

    let mut o = opts();
    o.include_tid = true;
    let out = collapse_with(o, input);
    assert_eq!(out.as_slice(), b"java-24636/25607;native_safe_halt 1\n".as_slice());
}

#[test]
fn comm_spaces_become_underscores() {
    let input = b"V8 WorkerThread 25607 4794564.109216: cycles:\n ffffffff8103ce3b some_func ([kernel.kallsyms])\n\n";
    let out = collapse_with(opts(), input);
    assert_eq!(out.as_slice(), b"V8_WorkerThread;some_func 1\n".as_slice());
}

#[test]
fn offsets_are_stripped() {
    let input = b"dd 1234 100.0: cycles:\n 7f53 _dl_check_map_versions+0x597 (/usr/lib/ld-2.28.so)\n\n";
    let out = collapse_with(opts(), input);
    assert_eq!(out.as_slice(), b"dd;_dl_check_map_versions 1\n".as_slice());
}

#[test]
fn weird_lines_are_tolerated() {
    let input = b"not an event header at all\njava 1234 100.0: cycles:\n this is no frame line\n ffffffff8103ce3b native_safe_halt ([kernel.kallsyms])\n\n";
    let out = collapse_with(opts(), input);
    assert_eq!(out.as_slice(), b"java;native_safe_halt 1\n".as_slice());
}

#[test]
fn missing_trailing_blank_line_still_flushes() {
    let input = b"java 1234 100.0: cycles:\n ffffffff8103ce3b native_safe_halt ([kernel.kallsyms])\n";
    let out = collapse_with(opts(), input);
    assert_eq!(out.as_slice(), b"java;native_safe_halt 1\n".as_slice());
}

#[test]
fn empty_input_gives_empty_output() {
    let out = collapse_with(opts(), b"");
    assert!(out.is_empty());
}

#[test]
fn ambiguous_bootstrap_is_an_error() {
    // A header-shaped line whose trailing token carries no event type, so
    // the first stack resolves no filter.
    let input = b"java 1234 100.0\n ffffffff8103ce3b native_safe_halt ([kernel.kallsyms])\n\n";
    let mut folder = Folder::from(opts());
    assert!(folder.collapse(input).is_err());
}

#[test]
fn malformed_input_never_panics() {
    let base: &[u8] = b"java 1234 100.0: cycles:\n ffffffff8103ce3b native_safe_halt ([kernel.kallsyms])\n ffffffff8101c6a3 default_idle ([kernel.kallsyms])\n\njava 1234 100.1: cycles:\n 7f53 x+0x12 (/lib/x.so)\n\n";
    // every truncation
    for n in 0..base.len() {
        let mut folder = Folder::from(opts());
        let _ = folder.collapse(&base[..n]);
    }
    // single-byte corruptions at a spread of positions
    for n in (0..base.len()).step_by(3) {
        let mut corrupted = base.to_vec();
        corrupted[n] = corrupted[n].wrapping_add(13);
        let mut folder = Folder::from(opts());
        let _ = folder.collapse(&corrupted);
    }
}

#[test]
fn jobs_merge_like_the_single_threaded_pass() {
    let one = b"java 1234 100.0: cycles:\n ffffffff8103ce3b func_a ([kernel.kallsyms])\n\njava 1234 100.1: cycles:\n ffffffff8103ce3b func_b ([kernel.kallsyms])\n\n";
    let mut input = Vec::new();
    for _ in 0..4 {
        input.extend_from_slice(one);
    }
    let expected = collapse_with(opts(), &input);

    // the same input, hand-partitioned into jobs at stack boundaries
    let mut folder = Folder::from(opts());
    let mut lines: Vec<Vec<u8>> = input.split(|b| *b == b'\n').map(|l| l.to_vec()).collect();
    // drop the artifact of the trailing newline, as the library's own line
    // splitting does
    if lines.last().map(|l| l.is_empty()).unwrap_or(false) {
        lines.pop();
    }

    // bootstrap one stack, then fan out over boundaries after blank lines
    let mut occ = stackfold::occur::Occurrences::new();
    let mut pos = 0usize;
    folder
        .pre_process(&lines, &mut pos, &mut occ)
        .expect("bootstrap");
    let mut bounds = vec![pos];
    let mut stacks = 0usize;
    for i in pos..lines.len() {
        if folder.would_end_stack(&lines[i]) {
            stacks += 1;
            if stacks % 2 == 0 {
                bounds.push(i + 1);
            }
        }
    }
    if *bounds.last().unwrap() != lines.len() {
        bounds.push(lines.len());
    }
    for w in bounds.windows(2) {
        let local = folder.collapse_job(&lines, w[0], w[1]);
        occ.merge(&local);
    }
    let out = occ.write_folded();
    assert_eq!(
        String::from_utf8_lossy(&out),
        String::from_utf8_lossy(&expected)
    );
}

#[test]
fn frames_are_emitted_root_first() {
    // perf prints the leaf first; the folded line lists the root first
    let input = b"java 1234 100.0: cycles:\n aa leaf ([kernel.kallsyms])\n bb middle ([kernel.kallsyms])\n cc root ([kernel.kallsyms])\n\n";
    let out = collapse_with(opts(), input);
    assert_eq!(out.as_slice(), b"java;root;middle;leaf 1\n".as_slice());
}

#[test]
fn header_with_counter_field() {
    let input = b"vote   913    72.176760:     257597 cycles:uppp:\n aa some_func (/usr/bin/vote)\n\n";
    let out = collapse_with(opts(), input);
    assert_eq!(out.as_slice(), b"vote;some_func 1\n".as_slice());
}

#[test]
fn process_pseudo_frames_are_dropped() {
    // a raw function opening with a parenthesis is a module pseudo-frame
    let input = b"java 1234 100.0: cycles:\n aa (/usr/bin/java) (/usr/bin/java)\n bb real_func (/usr/bin/java)\n\n";
    let out = collapse_with(opts(), input);
    assert_eq!(out.as_slice(), b"java;real_func 1\n".as_slice());
}
