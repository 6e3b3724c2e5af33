use stackfold::diag::{filtering_for_events_of_type, weird_event_line, weird_stack_line, DiagKind, DiagLevel};
use stackfold::normalize::{tidy_generic, tidy_java, with_module_fallback};
use stackfold::occur::Occurrences;
use stackfold::perf::{Folder, Options};

#[test]
fn event_line_parts_variants() {
    let (comm, pid, tid) = Folder::event_line_parts(b"java 25607 4794564.109216: cycles:").unwrap();
    assert_eq!((comm.as_slice(), pid.as_slice(), tid.as_slice()), (&b"java"[..], &b"?"[..], &b"25607"[..]));

    let (comm, pid, tid) =
        Folder::event_line_parts(b"java 24636/25607 [000] 4794564.109216: cycles:").unwrap();
    assert_eq!((comm.as_slice(), pid.as_slice(), tid.as_slice()), (&b"java"[..], &b"24636"[..], &b"25607"[..]));

    let (comm, _, _) =
        Folder::event_line_parts(b"V8 WorkerThread 25607 4794564.109216: cycles:").unwrap();
    assert_eq!(comm.as_slice(), &b"V8 WorkerThread"[..]);

    assert!(Folder::event_line_parts(b"no digits here at all").is_none());
    assert!(Folder::event_line_parts(b"12345 starts with digits").is_none());
}

#[test]
fn stack_line_parts_variants() {
    let (pc, func, module) =
        Folder::stack_line_parts(b"  ffffffff8103ce3b native_safe_halt ([kernel.kallsyms])").unwrap();
    assert_eq!(pc.as_slice(), &b"ffffffff8103ce3b"[..]);
    assert_eq!(func.as_slice(), &b"native_safe_halt"[..]);
    assert_eq!(module.as_slice(), &b"[kernel.kallsyms]"[..]);

    // two spaces between address and module: the raw function is a space
    let (_, func, module) = Folder::stack_line_parts(b"7f1e2215d058  (/lib/libc-2.15.so)").unwrap();
    assert_eq!(func.as_slice(), &b" "[..]);
    assert_eq!(module.as_slice(), &b"/lib/libc-2.15.so"[..]);

    // an unparenthesized module means this is no frame line
    assert!(Folder::stack_line_parts(b"ffff func module").is_none());
    assert!(Folder::stack_line_parts(b"loneword").is_none());
}

#[test]
fn tidy_generic_rules() {
    assert_eq!(tidy_generic(b"foo(int, char)").as_slice(), &b"foo"[..]);
    // Go method names keep their argument-looking middle
    assert_eq!(
        tidy_generic(b"net/http.(*Client).Do").as_slice(),
        &b"net/http.(*Client).Do"[..]
    );
    // anonymous namespaces stay whole
    assert_eq!(
        tidy_generic(b"(anonymous namespace)::helper").as_slice(),
        &b"(anonymous namespace)::helper"[..]
    );
    // the folded format reserves the semicolon
    assert_eq!(tidy_generic(b"a;b;c").as_slice(), &b"a:b:c"[..]);
}

#[test]
fn tidy_generic_is_idempotent_on_samples() {
    let samples: [&[u8]; 5] = [
        b"foo(int, char)",
        b"net/http.(*Client).Do",
        b"(anonymous namespace)::helper",
        b"a;b;c",
        b"Lcom/example/Foo;.bar(I)V",
    ];
    for s in samples {
        let once = tidy_generic(s);
        let twice = tidy_generic(once.as_slice());
        assert_eq!(once, twice);
    }
}

#[test]
fn tidy_java_rules() {
    assert_eq!(tidy_java(b"Lcom/example/Foo:.bar").as_slice(), &b"com/example/Foo:.bar"[..]);
    // no path separator: the sigil stays
    assert_eq!(tidy_java(b"Lonely").as_slice(), &b"Lonely"[..]);
    assert_eq!(tidy_java(b"plain/name").as_slice(), &b"plain/name"[..]);
}

#[test]
fn module_fallback_rules() {
    // known symbols pass through
    assert_eq!(
        with_module_fallback(b"/lib/x.so", b"known", b"ffff", false).as_slice(),
        &b"known"[..]
    );
    // unknown symbol, known module: bracketed basename
    assert_eq!(
        with_module_fallback(b"/tmp/perf-1234.map", b"[unknown]", b"ffff", false).as_slice(),
        &b"[perf-1234.map]"[..]
    );
    // unknown symbol and module, no addresses: stays as is
    assert_eq!(
        with_module_fallback(b"[unknown]", b"[unknown]", b"ffff", false).as_slice(),
        &b"[unknown]"[..]
    );
    // with addresses, the raw address disambiguates
    assert_eq!(
        with_module_fallback(b"[unknown]", b"[unknown]", b"ffff", true).as_slice(),
        &b"[unknown <ffff>]"[..]
    );
    assert_eq!(
        with_module_fallback(b"/lib/x.so", b"[unknown]", b"ffff", true).as_slice(),
        &b"[x.so <ffff>]"[..]
    );
}

#[test]
fn occurrences_insert_get_merge() {
    let mut a = Occurrences::new();
    a.insert_or_add(b"x;y".to_vec(), 1);
    a.insert_or_add(b"x;y".to_vec(), 2);
    a.insert_or_add(b"z".to_vec(), 1);
    assert_eq!(a.get(b"x;y"), Some(3));
    assert_eq!(a.get(b"z"), Some(1));
    assert_eq!(a.get(b"missing"), None);
    assert_eq!(a.len(), 2);

    let mut b = Occurrences::new();
    b.insert_or_add(b"z".to_vec(), 5);
    b.insert_or_add(b"w".to_vec(), 7);
    a.merge(&b);
    assert_eq!(a.get(b"z"), Some(6));
    assert_eq!(a.get(b"w"), Some(7));
    assert_eq!(a.len(), 3);
    assert_eq!(a.write_folded().as_slice(), &b"x;y 3\nz 6\nw 7\n"[..]);
}

#[test]
fn counts_saturate_instead_of_wrapping() {
    let mut a = Occurrences::new();
    a.insert_or_add(b"k".to_vec(), u64::MAX - 1);
    a.insert_or_add(b"k".to_vec(), 5);
    assert_eq!(a.get(b"k"), Some(u64::MAX));
}

#[test]
fn format_detection() {
    let f = Folder::default();
    let good = b"java 1234 100.0: cycles:\n ffffffff8103ce3b native_safe_halt ([kernel.kallsyms])\n";
    assert_eq!(f.is_applicable(good), Some(true));
    let bad = b"completely different format\n";
    assert_eq!(f.is_applicable(bad), Some(false));
    let header_only = b"java 1234 100.0: cycles:\n";
    assert_eq!(f.is_applicable(header_only), None);
    assert_eq!(f.is_applicable(b"# comment only\n"), None);
}

#[test]
fn would_end_stack_is_blankness() {
    let f = Folder::default();
    assert!(f.would_end_stack(b""));
    assert!(f.would_end_stack(b"  \t\r"));
    assert!(!f.would_end_stack(b" x "));
}

#[test]
fn configuration_normalization() {
    let mut o = Options::default();
    o.nthreads = 0;
    o.include_tid = true;
    let mut f = Folder::from(o);
    assert_eq!(f.nthreads(), 1);
    f.set_nthreads(0);
    assert_eq!(f.nthreads(), 1);
    f.set_nthreads(8);
    assert_eq!(f.nthreads(), 8);
    f.set_nstacks_per_job(0);
    assert_eq!(f.nstacks_per_job(), 1);
    f.set_nstacks_per_job(50);
    assert_eq!(f.nstacks_per_job(), 50);
}

#[test]
fn diagnostics_carry_their_line() {
    let d = filtering_for_events_of_type(b"cycles");
    assert_eq!(d.kind, DiagKind::EventFilterResolved);
    assert_eq!(d.level, DiagLevel::Info);
    assert_eq!(d.text.as_slice(), &b"cycles"[..]);
    let d = weird_event_line(b"odd header");
    assert_eq!(d.kind, DiagKind::WeirdEventLine);
    assert_eq!(d.level, DiagLevel::Warn);
    assert_eq!(d.text.as_slice(), &b"odd header"[..]);
    let d = weird_stack_line(b"odd frame");
    assert_eq!(d.kind, DiagKind::WeirdStackLine);
    assert_eq!(d.text.as_slice(), &b"odd frame"[..]);
}

#[test]
fn inlined_frames_split_and_annotate() {
    // one raw line holding an inlined call chain
    let input = b"java 1234 100.0: cycles:\n ffff outer->inner1->inner2 (/tmp/perf-1.map)\n\n";
    let mut folder = Folder::from(Options::default());
    let out = folder.collapse(input).unwrap();
    assert_eq!(
        out.as_slice(),
        &b"java;outer;inner1_[i];inner2_[i] 1\n"[..]
    );
}

#[test]
fn demangling_through_the_demangler() {
    // a C++-mangled symbol; with demangling off the raw name is kept (only
    // the argument list would be cut), with it on the demangler's result is
    let input = b"prog 1234 100.0: cycles:\n ffff _ZN3foo3barEv (/usr/bin/prog)\n\n";
    let mut folder = Folder::from(Options::default());
    let out = folder.collapse(input).unwrap();
    assert_eq!(out.as_slice(), &b"prog;_ZN3foo3barEv 1\n"[..]);

    let mut o = Options::default();
    o.demangle = true;
    let mut folder = Folder::from(o);
    let out = folder.collapse(input).unwrap();
    assert_eq!(out.as_slice(), &b"prog;foo::bar 1\n"[..]);
}

#[test]
fn rust_hash_suffix_is_stripped() {
    let input = b"prog 1234 100.0: cycles:\n ffff alloc::alloc::box_free::h1234567890abcdef (/usr/bin/prog)\n\n";
    let mut folder = Folder::from(Options::default());
    let out = folder.collapse(input).unwrap();
    assert_eq!(out.as_slice(), &b"prog;alloc::alloc::box_free 1\n"[..]);
}
