//! Symbol normalization: turning a raw frame descriptor (function text,
//! module, address) into the canonical display name that the folded output
//! uses. Pure byte-string transformations, plus one call into an outside
//! demangler.

use vstd::prelude::*;

use crate::bytes::{
    append_bytes, byte_is_hex_digit, bytes_eq, ends_with, ends_with_spec, find_byte,
    find_byte_spec, is_hex_digit, lemma_find_byte_props, replace_semi, replace_semi_spec,
    rfind_byte, rfind_byte_spec, starts_with, starts_with_spec, subvec, B_COLON, B_DASH, B_DOT,
    B_GT, B_LBRACK, B_LC_H, B_LPAREN, B_RBRACK, B_RPAREN, B_SEMI, B_SLASH, B_SPACE, B_UC_L,
};

verus! {

// ---------------------------------------------------------------------------
// Byte-string literals of the grammar.
// ---------------------------------------------------------------------------

/// `"[unknown]"`, the profiler's unknown-symbol sentinel.
pub open spec fn lit_unknown() -> Seq<u8> {
    seq![B_LBRACK, 117u8, 110u8, 107u8, 110u8, 111u8, 119u8, 110u8, B_RBRACK]
}

/// `"unknown"`.
pub open spec fn lit_unknown_word() -> Seq<u8> {
    seq![117u8, 110u8, 107u8, 110u8, 111u8, 119u8, 110u8]
}

/// `"(anonymous namespace)"`, kept verbatim by the generic tidy pass.
pub open spec fn lit_anon_ns() -> Seq<u8> {
    seq![
        B_LPAREN,
        97u8,
        110u8,
        111u8,
        110u8,
        121u8,
        109u8,
        111u8,
        117u8,
        115u8,
        B_SPACE,
        110u8,
        97u8,
        109u8,
        101u8,
        115u8,
        112u8,
        97u8,
        99u8,
        101u8,
        B_RPAREN,
    ]
}

/// `"vmlinux"`: a module ending in it denotes kernel code.
pub open spec fn lit_vmlinux() -> Seq<u8> {
    seq![118u8, 109u8, 108u8, 105u8, 110u8, 117u8, 120u8]
}

/// `"/tmp/perf-"`: prefix of the profiler's JIT map files.
pub open spec fn lit_tmp_perf() -> Seq<u8> {
    seq![B_SLASH, 116u8, 109u8, 112u8, B_SLASH, 112u8, 101u8, 114u8, 102u8, B_DASH]
}

/// `".map"`: suffix of the profiler's JIT map files.
pub open spec fn lit_map() -> Seq<u8> {
    seq![B_DOT, 109u8, 97u8, 112u8]
}

/// `"_[i]"`: inlined-frame annotation.
pub open spec fn lit_suffix_inline() -> Seq<u8> {
    seq![95u8, B_LBRACK, 105u8, B_RBRACK]
}

/// `"_[k]"`: kernel-frame annotation.
pub open spec fn lit_suffix_kernel() -> Seq<u8> {
    seq![95u8, B_LBRACK, 107u8, B_RBRACK]
}

/// `"_[j]"`: JIT-frame annotation.
pub open spec fn lit_suffix_jit() -> Seq<u8> {
    seq![95u8, B_LBRACK, 106u8, B_RBRACK]
}

pub fn mk_unknown() -> (v: Vec<u8>)
    ensures
        v@ == lit_unknown(),
{
    let mut v: Vec<u8> = Vec::new();
    v.push(B_LBRACK);
    v.push(117);
    v.push(110);
    v.push(107);
    v.push(110);
    v.push(111);
    v.push(119);
    v.push(110);
    v.push(B_RBRACK);
    proof {
        assert(v@ =~= lit_unknown());
    }
    v
}

pub fn mk_unknown_word() -> (v: Vec<u8>)
    ensures
        v@ == lit_unknown_word(),
{
    let mut v: Vec<u8> = Vec::new();
    v.push(117);
    v.push(110);
    v.push(107);
    v.push(110);
    v.push(111);
    v.push(119);
    v.push(110);
    proof {
        assert(v@ =~= lit_unknown_word());
    }
    v
}

pub fn mk_anon_ns() -> (v: Vec<u8>)
    ensures
        v@ == lit_anon_ns(),
{
    let mut v: Vec<u8> = Vec::new();
    v.push(B_LPAREN);
    v.push(97);
    v.push(110);
    v.push(111);
    v.push(110);
    v.push(121);
    v.push(109);
    v.push(111);
    v.push(117);
    v.push(115);
    v.push(B_SPACE);
    v.push(110);
    v.push(97);
    v.push(109);
    v.push(101);
    v.push(115);
    v.push(112);
    v.push(97);
    v.push(99);
    v.push(101);
    v.push(B_RPAREN);
    proof {
        assert(v@ =~= lit_anon_ns());
    }
    v
}

pub fn mk_vmlinux() -> (v: Vec<u8>)
    ensures
        v@ == lit_vmlinux(),
{
    let mut v: Vec<u8> = Vec::new();
    v.push(118);
    v.push(109);
    v.push(108);
    v.push(105);
    v.push(110);
    v.push(117);
    v.push(120);
    proof {
        assert(v@ =~= lit_vmlinux());
    }
    v
}

pub fn mk_tmp_perf() -> (v: Vec<u8>)
    ensures
        v@ == lit_tmp_perf(),
{
    let mut v: Vec<u8> = Vec::new();
    v.push(B_SLASH);
    v.push(116);
    v.push(109);
    v.push(112);
    v.push(B_SLASH);
    v.push(112);
    v.push(101);
    v.push(114);
    v.push(102);
    v.push(B_DASH);
    proof {
        assert(v@ =~= lit_tmp_perf());
    }
    v
}

pub fn mk_map() -> (v: Vec<u8>)
    ensures
        v@ == lit_map(),
{
    let mut v: Vec<u8> = Vec::new();
    v.push(B_DOT);
    v.push(109);
    v.push(97);
    v.push(112);
    proof {
        assert(v@ =~= lit_map());
    }
    v
}

fn push_suffix(v: &mut Vec<u8>, letter: u8)
    ensures
        final(v)@ == old(v)@ + seq![95u8, B_LBRACK, letter, B_RBRACK],
{
    v.push(95);
    v.push(B_LBRACK);
    v.push(letter);
    v.push(B_RBRACK);
    proof {
        assert(v@ =~= old(v)@ + seq![95u8, B_LBRACK, letter, B_RBRACK]);
    }
}

// ---------------------------------------------------------------------------
// The outside demangler.
// ---------------------------------------------------------------------------

/// What the outside demangler returns for a given identifier. The mapping is
/// far too large to state; it is a function of the identifier bytes alone.
pub uninterp spec fn demangled(s: Seq<u8>) -> Seq<u8>;

/// Relies on `symbolic_demangle::demangle`: demangles a language-mangled
/// identifier, handing back the input unchanged when no scheme recognizes
/// it. The result depends on the identifier alone.
#[verifier::external_body]
pub(crate) fn demangle_bytes(raw: &[u8]) -> (r: Vec<u8>)
    ensures
        r@ == demangled(raw@),
{
    let s = String::from_utf8_lossy(raw);
    symbolic_demangle::demangle(s.as_ref()).as_bytes().to_vec()
}

// ---------------------------------------------------------------------------
// The corrective pass for partially demangled Rust symbols.
// ---------------------------------------------------------------------------

/// A partially demangled Rust symbol still carries its trailing hash:
/// `::h` followed by sixteen hex digits.
pub open spec fn has_rust_hash(s: Seq<u8>) -> bool {
    &&& s.len() >= 19
    &&& s[s.len() - 19] == B_COLON
    &&& s[s.len() - 18] == B_COLON
    &&& s[s.len() - 17] == B_LC_H
    &&& forall|i: int| s.len() - 16 <= i < s.len() ==> is_hex_digit(s[i])
}

/// The narrow corrective pass applied when demangling is off: the profiler
/// itself demangles Rust symbols but leaves the hash suffix; strip it.
pub open spec fn fix_rust_spec(s: Seq<u8>) -> Seq<u8> {
    if has_rust_hash(s) {
        s.subrange(0, s.len() - 19)
    } else {
        s
    }
}

pub fn fix_partially_demangled_rust_symbol(s: &[u8]) -> (r: Vec<u8>)
    ensures
        r@ == fix_rust_spec(s@),
{
    if s.len() >= 19 && s[s.len() - 19] == B_COLON && s[s.len() - 18] == B_COLON && s[s.len()
        - 17] == B_LC_H {
        let start: usize = s.len() - 16;
        let mut i: usize = start;
        while i < s.len()
            invariant
                start <= i <= s@.len(),
                start == s@.len() - 16,
                forall|j: int| start <= j < i ==> is_hex_digit(s@[j]),
            decreases s@.len() - i,
        {
            if !byte_is_hex_digit(s[i]) {
                return subvec(s, 0, s.len());
            }
            i = i + 1;
        }
        subvec(s, 0, s.len() - 19)
    } else {
        subvec(s, 0, s.len())
    }
}

// ---------------------------------------------------------------------------
// Module fallback for unknown symbols.
// ---------------------------------------------------------------------------

/// Everything after the last `/` of a module path.
pub open spec fn basename(m: Seq<u8>) -> Seq<u8> {
    match rfind_byte_spec(m, B_SLASH) {
        Some(i) => m.subrange(i + 1, m.len() as int),
        None => m,
    }
}

/// Display name for an unknown symbol: a bracketed fallback built from the
/// module's basename, with the raw address when addresses are requested.
/// A known symbol passes through unchanged.
pub open spec fn with_module_fallback_spec(
    module: Seq<u8>,
    func: Seq<u8>,
    pc: Seq<u8>,
    include_addrs: bool,
) -> Seq<u8> {
    if func != lit_unknown() {
        func
    } else if module == lit_unknown() && !include_addrs {
        func
    } else {
        let name = if module == lit_unknown() {
            lit_unknown_word()
        } else {
            basename(module)
        };
        if include_addrs {
            seq![B_LBRACK] + name + seq![B_SPACE, 60u8] + pc + seq![B_GT, B_RBRACK]
        } else {
            seq![B_LBRACK] + name + seq![B_RBRACK]
        }
    }
}

pub fn with_module_fallback(module: &[u8], func: &[u8], pc: &[u8], include_addrs: bool) -> (r: Vec<
    u8,
>)
    ensures
        r@ == with_module_fallback_spec(module@, func@, pc@, include_addrs),
{
    let unknown = mk_unknown();
    if !bytes_eq(func, unknown.as_slice()) {
        return subvec(func, 0, func.len());
    }
    let module_unknown = bytes_eq(module, unknown.as_slice());
    if module_unknown && !include_addrs {
        return subvec(func, 0, func.len());
    }
    let name: Vec<u8> = if module_unknown {
        mk_unknown_word()
    } else {
        proof {
            lemma_rfind_slash_bounds(module@);
        }
        match rfind_byte(module, B_SLASH) {
            Some(i) => {
                let n: usize = module.len();
                proof {
                    assert(i < module@.len());
                }
                subvec(module, i + 1, n)
            },
            None => subvec(module, 0, module.len()),
        }
    };
    let mut r: Vec<u8> = Vec::new();
    r.push(B_LBRACK);
    append_bytes(&mut r, name.as_slice());
    if include_addrs {
        r.push(B_SPACE);
        r.push(60);
        append_bytes(&mut r, pc);
        r.push(B_GT);
        r.push(B_RBRACK);
        proof {
            assert(r@ =~= seq![B_LBRACK] + name@ + seq![B_SPACE, 60u8] + pc@ + seq![
                B_GT,
                B_RBRACK,
            ]);
        }
    } else {
        r.push(B_RBRACK);
        proof {
            assert(r@ =~= seq![B_LBRACK] + name@ + seq![B_RBRACK]);
        }
    }
    r
}

proof fn lemma_rfind_slash_bounds(m: Seq<u8>)
    ensures
        match rfind_byte_spec(m, B_SLASH) {
            Some(i) => 0 <= i < m.len(),
            None => true,
        },
    decreases m.len(),
{
    if m.len() > 0 && m[m.len() - 1] != B_SLASH {
        lemma_rfind_slash_bounds(m.drop_last());
    }
}

// ---------------------------------------------------------------------------
// Generic tidying.
// ---------------------------------------------------------------------------

/// Generic cleanup of a display name: `;` becomes `:` (the folded format
/// reserves `;`), and an argument list starting at the first `(` is cut,
/// unless that parenthesis opens an anonymous-namespace marker or follows a
/// `.` (a method-style name that must stay whole).
pub open spec fn tidy_generic_spec(func: Seq<u8>) -> Seq<u8> {
    let t = replace_semi_spec(func);
    match find_byte_spec(t, B_LPAREN) {
        None => t,
        Some(i) => {
            if starts_with_spec(t.subrange(i, t.len() as int), lit_anon_ns()) {
                t
            } else if i > 0 && t[i - 1] == B_DOT {
                t
            } else {
                t.subrange(0, i)
            }
        },
    }
}

pub fn tidy_generic(func: &[u8]) -> (r: Vec<u8>)
    ensures
        r@ == tidy_generic_spec(func@),
{
    let t = replace_semi(func);
    proof {
        lemma_find_byte_props(t@, B_LPAREN);
    }
    match find_byte(t.as_slice(), B_LPAREN) {
        None => t,
        Some(i) => {
            let tail = subvec(t.as_slice(), i, t.len());
            let anon = mk_anon_ns();
            if starts_with(tail.as_slice(), anon.as_slice()) {
                proof {
                    assert(tail@ == t@.subrange(i as int, t@.len() as int));
                }
                t
            } else if i > 0 && t[i - 1] == B_DOT {
                t
            } else {
                subvec(t.as_slice(), 0, i)
            }
        },
    }
}

/// Generic cleanup applied twice is the cleanup applied once.
pub proof fn lemma_tidy_generic_idempotent(s: Seq<u8>)
    ensures
        tidy_generic_spec(tidy_generic_spec(s)) == tidy_generic_spec(s),
{
    let t = replace_semi_spec(s);
    let t1 = tidy_generic_spec(s);
    lemma_find_byte_props(t, B_LPAREN);
    assert(forall|i: int| 0 <= i < t.len() ==> t[i] != B_SEMI);
    match find_byte_spec(t, B_LPAREN) {
        None => {
            assert(t1 == t);
            assert(replace_semi_spec(t1) =~= t1);
        },
        Some(i) => {
            if starts_with_spec(t.subrange(i, t.len() as int), lit_anon_ns()) || (i > 0 && t[i
                - 1] == B_DOT) {
                assert(t1 == t);
                assert(replace_semi_spec(t1) =~= t1);
            } else {
                assert(t1 == t.subrange(0, i));
                assert(forall|j: int| 0 <= j < t1.len() ==> t1[j] != B_SEMI);
                assert(replace_semi_spec(t1) =~= t1);
                assert(forall|j: int| 0 <= j < t1.len() ==> t1[j] != B_LPAREN);
                lemma_find_byte_props(t1, B_LPAREN);
                if find_byte_spec(t1, B_LPAREN) is Some {
                    let k = find_byte_spec(t1, B_LPAREN)->Some_0;
                    assert(t1[k] == B_LPAREN);
                }
            }
        },
    }
}

// ---------------------------------------------------------------------------
// Java tidying.
// ---------------------------------------------------------------------------

/// Cleanup gated on a Java process identity: strip a leading `L`
/// type-descriptor sigil when the rest still holds a `/` path separator.
pub open spec fn tidy_java_spec(func: Seq<u8>) -> Seq<u8> {
    if func.len() > 0 && func[0] == B_UC_L && find_byte_spec(func, B_SLASH) is Some {
        func.drop_first()
    } else {
        func
    }
}

pub fn tidy_java(func: &[u8]) -> (r: Vec<u8>)
    ensures
        r@ == tidy_java_spec(func@),
{
    if func.len() > 0 && func[0] == B_UC_L {
        match find_byte(func, B_SLASH) {
            Some(_) => {
                let r = subvec(func, 1, func.len());
                proof {
                    assert(r@ =~= func@.drop_first());
                }
                r
            },
            None => subvec(func, 0, func.len()),
        }
    } else {
        subvec(func, 0, func.len())
    }
}

// ---------------------------------------------------------------------------
// Annotation.
// ---------------------------------------------------------------------------

/// Module syntax denoting kernel code, unless it is the unknown placeholder.
pub open spec fn kernel_module(module: Seq<u8>) -> bool {
    ((module.len() > 0 && module[0] == B_LBRACK) || ends_with_spec(module, lit_vmlinux()))
        && module != lit_unknown()
}

/// Module path matching the profiler's JIT map naming convention.
pub open spec fn jit_module(module: Seq<u8>) -> bool {
    starts_with_spec(module, lit_tmp_perf()) && ends_with_spec(module, lit_map())
}

/// One fully normalized frame name: module fallback, generic tidy, Java tidy
/// when the process identity says so, then at most one annotation, tested
/// inlined first, kernel second, JIT third.
pub open spec fn normalize_frame_spec(
    piece: Seq<u8>,
    module: Seq<u8>,
    pc: Seq<u8>,
    include_addrs: bool,
    annotate_kernel: bool,
    annotate_jit: bool,
    java_proc: bool,
    inlined: bool,
) -> Seq<u8> {
    let f1 = with_module_fallback_spec(module, piece, pc, include_addrs);
    let f2 = tidy_generic_spec(f1);
    let f3 = if java_proc {
        tidy_java_spec(f2)
    } else {
        f2
    };
    if inlined {
        f3 + lit_suffix_inline()
    } else if annotate_kernel && kernel_module(module) {
        f3 + lit_suffix_kernel()
    } else if annotate_jit && jit_module(module) {
        f3 + lit_suffix_jit()
    } else {
        f3
    }
}

pub fn normalize_frame(
    piece: &[u8],
    module: &[u8],
    pc: &[u8],
    include_addrs: bool,
    annotate_kernel: bool,
    annotate_jit: bool,
    java_proc: bool,
    inlined: bool,
) -> (r: Vec<u8>)
    ensures
        r@ == normalize_frame_spec(
            piece@,
            module@,
            pc@,
            include_addrs,
            annotate_kernel,
            annotate_jit,
            java_proc,
            inlined,
        ),
{
    let f1 = with_module_fallback(module, piece, pc, include_addrs);
    let f2 = tidy_generic(f1.as_slice());
    let mut f3 = if java_proc {
        tidy_java(f2.as_slice())
    } else {
        f2
    };
    if inlined {
        push_suffix(&mut f3, 105);
        return f3;
    }
    let is_kernel = if annotate_kernel {
        let vml = mk_vmlinux();
        let unknown = mk_unknown();
        ((module.len() > 0 && module[0] == B_LBRACK) || ends_with(module, vml.as_slice()))
            && !bytes_eq(module, unknown.as_slice())
    } else {
        false
    };
    if is_kernel {
        push_suffix(&mut f3, 107);
        return f3;
    }
    let is_jit = if annotate_jit {
        let pre = mk_tmp_perf();
        let suf = mk_map();
        starts_with(module, pre.as_slice()) && ends_with(module, suf.as_slice())
    } else {
        false
    };
    if is_jit {
        push_suffix(&mut f3, 106);
        return f3;
    }
    f3
}

} // verus!
