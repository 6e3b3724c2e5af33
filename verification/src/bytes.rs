//! Byte-level helpers for the line-oriented grammar: whitespace trimming,
//! searching, prefix/suffix tests and slice copies, each tied to a
//! spec-level definition used by the parser's contracts.

use vstd::prelude::*;

verus! {

pub const B_TAB: u8 = 9;
pub const B_NL: u8 = 10;
pub const B_VT: u8 = 11;
pub const B_FF: u8 = 12;
pub const B_CR: u8 = 13;
pub const B_SPACE: u8 = 32;
pub const B_HASH: u8 = 35;
pub const B_LPAREN: u8 = 40;
pub const B_RPAREN: u8 = 41;
pub const B_PLUS: u8 = 43;
pub const B_DASH: u8 = 45;
pub const B_DOT: u8 = 46;
pub const B_SLASH: u8 = 47;
pub const B_ZERO: u8 = 48;
pub const B_NINE: u8 = 57;
pub const B_COLON: u8 = 58;
pub const B_SEMI: u8 = 59;
pub const B_GT: u8 = 62;
pub const B_QMARK: u8 = 63;
pub const B_UC_A: u8 = 65;
pub const B_UC_F: u8 = 70;
pub const B_UC_L: u8 = 76;
pub const B_LBRACK: u8 = 91;
pub const B_RBRACK: u8 = 93;
pub const B_LC_A: u8 = 97;
pub const B_LC_F: u8 = 102;
pub const B_LC_H: u8 = 104;
pub const B_LC_X: u8 = 120;

/// ASCII whitespace: the only whitespace the line grammar recognizes.
pub open spec fn is_ws(b: u8) -> bool {
    b == B_SPACE || b == B_TAB || b == B_NL || b == B_CR || b == B_VT || b == B_FF
}

/// Executable test for [`is_ws`].
pub fn byte_is_ws(b: u8) -> (r: bool)
    ensures
        r == is_ws(b),
{
    b == B_SPACE || b == B_TAB || b == B_NL || b == B_CR || b == B_VT || b == B_FF
}

pub open spec fn is_digit(b: u8) -> bool {
    B_ZERO <= b <= B_NINE
}

pub fn byte_is_digit(b: u8) -> (r: bool)
    ensures
        r == is_digit(b),
{
    B_ZERO <= b && b <= B_NINE
}

pub open spec fn is_hex_digit(b: u8) -> bool {
    is_digit(b) || (B_LC_A <= b <= B_LC_F) || (B_UC_A <= b <= B_UC_F)
}

pub fn byte_is_hex_digit(b: u8) -> (r: bool)
    ensures
        r == is_hex_digit(b),
{
    byte_is_digit(b) || (B_LC_A <= b && b <= B_LC_F) || (B_UC_A <= b && b <= B_UC_F)
}

/// A line is blank when every byte is ASCII whitespace.
pub open spec fn all_ws(s: Seq<u8>) -> bool {
    forall|i: int| 0 <= i < s.len() ==> is_ws(s[i])
}

pub open spec fn trim_end_spec(s: Seq<u8>) -> Seq<u8>
    decreases s.len(),
{
    if s.len() == 0 {
        s
    } else if is_ws(s[s.len() - 1]) {
        trim_end_spec(s.drop_last())
    } else {
        s
    }
}

pub open spec fn trim_start_spec(s: Seq<u8>) -> Seq<u8>
    decreases s.len(),
{
    if s.len() == 0 {
        s
    } else if is_ws(s[0]) {
        trim_start_spec(s.drop_first())
    } else {
        s
    }
}

/// Both ends trimmed.
pub open spec fn trim_spec(s: Seq<u8>) -> Seq<u8> {
    trim_start_spec(trim_end_spec(s))
}

pub proof fn lemma_trim_end_empty_iff_all_ws(s: Seq<u8>)
    ensures
        (trim_end_spec(s).len() == 0) <==> all_ws(s),
    decreases s.len(),
{
    if s.len() > 0 {
        if is_ws(s[s.len() - 1]) {
            lemma_trim_end_empty_iff_all_ws(s.drop_last());
            if trim_end_spec(s).len() == 0 {
                assert forall|i: int| 0 <= i < s.len() implies is_ws(s[i]) by {
                    if i < s.len() - 1 {
                        assert(s.drop_last()[i] == s[i]);
                    }
                }
            }
        }
    }
}

/// Copy of `s[from..to]`.
pub fn subvec(s: &[u8], from: usize, to: usize) -> (r: Vec<u8>)
    requires
        from <= to <= s@.len(),
    ensures
        r@ == s@.subrange(from as int, to as int),
{
    let mut r: Vec<u8> = Vec::new();
    let mut i: usize = from;
    while i < to
        invariant
            from <= i <= to <= s@.len(),
            r@ == s@.subrange(from as int, i as int),
        decreases to - i,
    {
        r.push(s[i]);
        proof {
            assert(s@.subrange(from as int, (i + 1) as int) =~= s@.subrange(
                from as int,
                i as int,
            ).push(s@[i as int]));
        }
        i = i + 1;
    }
    r
}

/// Append all of `src` onto `dst`.
pub fn append_bytes(dst: &mut Vec<u8>, src: &[u8])
    ensures
        final(dst)@ == old(dst)@ + src@,
{
    let mut i: usize = 0;
    while i < src.len()
        invariant
            i <= src@.len(),
            dst@ == old(dst)@ + src@.subrange(0, i as int),
        decreases src@.len() - i,
    {
        dst.push(src[i]);
        proof {
            assert(old(dst)@ + src@.subrange(0, (i + 1) as int) =~= (old(dst)@ + src@.subrange(
                0,
                i as int,
            )).push(src@[i as int]));
        }
        i = i + 1;
    }
    proof {
        assert(src@.subrange(0, src@.len() as int) =~= src@);
    }
}

pub fn bytes_eq(a: &[u8], b: &[u8]) -> (r: bool)
    ensures
        r == (a@ == b@),
{
    if a.len() != b.len() {
        return false;
    }
    let mut i: usize = 0;
    while i < a.len()
        invariant
            i <= a@.len(),
            a@.len() == b@.len(),
            forall|j: int| 0 <= j < i ==> a@[j] == b@[j],
        decreases a@.len() - i,
    {
        if a[i] != b[i] {
            return false;
        }
        i = i + 1;
    }
    proof {
        assert(a@ =~= b@);
    }
    true
}

/// Trim ASCII whitespace from the end, as an index into `s`.
pub fn trim_end_idx(s: &[u8]) -> (end: usize)
    ensures
        end <= s@.len(),
        s@.subrange(0, end as int) == trim_end_spec(s@),
{
    let mut end: usize = s.len();
    proof {
        assert(s@.subrange(0, s@.len() as int) =~= s@);
    }
    while end > 0 && byte_is_ws(s[end - 1])
        invariant
            end <= s@.len(),
            trim_end_spec(s@) == trim_end_spec(s@.subrange(0, end as int)),
        decreases end,
    {
        proof {
            assert(s@.subrange(0, end as int).drop_last() =~= s@.subrange(0, end as int - 1));
        }
        end = end - 1;
    }
    proof {
        assert(trim_end_spec(s@.subrange(0, end as int)) == s@.subrange(0, end as int));
    }
    end
}

/// Trim ASCII whitespace from the start, as an index into `s`.
pub fn trim_start_idx(s: &[u8]) -> (start: usize)
    ensures
        start <= s@.len(),
        s@.subrange(start as int, s@.len() as int) == trim_start_spec(s@),
{
    let mut start: usize = 0;
    proof {
        assert(s@.subrange(0, s@.len() as int) =~= s@);
    }
    while start < s.len() && byte_is_ws(s[start])
        invariant
            start <= s@.len(),
            trim_start_spec(s@) == trim_start_spec(s@.subrange(start as int, s@.len() as int)),
        decreases s@.len() - start,
    {
        proof {
            assert(s@.subrange(start as int, s@.len() as int).drop_first() =~= s@.subrange(
                start as int + 1,
                s@.len() as int,
            ));
        }
        start = start + 1;
    }
    proof {
        assert(trim_start_spec(s@.subrange(start as int, s@.len() as int)) == s@.subrange(
            start as int,
            s@.len() as int,
        ));
    }
    start
}

/// Index of the first occurrence of `b` in `s`, if any.
pub open spec fn find_byte_spec(s: Seq<u8>, b: u8) -> Option<int>
    decreases s.len(),
{
    if s.len() == 0 {
        None
    } else if s[0] == b {
        Some(0int)
    } else {
        match find_byte_spec(s.drop_first(), b) {
            Some(i) => Some(i + 1),
            None => None,
        }
    }
}

pub proof fn lemma_find_byte_props(s: Seq<u8>, b: u8)
    ensures
        match find_byte_spec(s, b) {
            Some(i) => 0 <= i < s.len() && s[i] == b && forall|j: int| 0 <= j < i ==> s[j] != b,
            None => forall|j: int| 0 <= j < s.len() ==> s[j] != b,
        },
    decreases s.len(),
{
    if s.len() > 0 && s[0] != b {
        lemma_find_byte_props(s.drop_first(), b);
        assert forall|j: int| 1 <= j < s.len() implies s.drop_first()[j - 1] == s[j] by {}
    }
}

pub fn find_byte(s: &[u8], b: u8) -> (r: Option<usize>)
    ensures
        match r {
            Some(i) => find_byte_spec(s@, b) == Some(i as int),
            None => find_byte_spec(s@, b) is None,
        },
{
    let mut i: usize = 0;
    while i < s.len()
        invariant
            i <= s@.len(),
            forall|j: int| 0 <= j < i ==> s@[j] != b,
        decreases s@.len() - i,
    {
        if s[i] == b {
            proof {
                lemma_find_byte_props(s@, b);
                match find_byte_spec(s@, b) {
                    Some(k) => {
                        if k < i {
                            assert(s@[k] != b);
                        }
                        if k > i {
                            assert(s@[i as int] != b);
                        }
                    },
                    None => {
                        assert(s@[i as int] != b);
                    },
                }
            }
            return Some(i);
        }
        i = i + 1;
    }
    proof {
        lemma_find_byte_props(s@, b);
        if find_byte_spec(s@, b) is Some {
            let k = find_byte_spec(s@, b)->Some_0;
            assert(s@[k] == b);
        }
    }
    None
}

/// Index of the last occurrence of `b` in `s`, if any.
pub open spec fn rfind_byte_spec(s: Seq<u8>, b: u8) -> Option<int>
    decreases s.len(),
{
    if s.len() == 0 {
        None
    } else if s[s.len() - 1] == b {
        Some(s.len() - 1)
    } else {
        rfind_byte_spec(s.drop_last(), b)
    }
}

pub proof fn lemma_rfind_byte_props(s: Seq<u8>, b: u8)
    ensures
        match rfind_byte_spec(s, b) {
            Some(i) => 0 <= i < s.len() && s[i] == b,
            None => true,
        },
    decreases s.len(),
{
    if s.len() > 0 && s[s.len() - 1] != b {
        lemma_rfind_byte_props(s.drop_last(), b);
    }
}

pub fn rfind_byte(s: &[u8], b: u8) -> (r: Option<usize>)
    ensures
        match r {
            Some(i) => rfind_byte_spec(s@, b) == Some(i as int),
            None => rfind_byte_spec(s@, b) is None,
        },
{
    let mut end: usize = s.len();
    proof {
        assert(s@.subrange(0, s@.len() as int) =~= s@);
    }
    while end > 0
        invariant
            end <= s@.len(),
            rfind_byte_spec(s@, b) == rfind_byte_spec(s@.subrange(0, end as int), b),
        decreases end,
    {
        proof {
            assert(s@.subrange(0, end as int).drop_last() =~= s@.subrange(0, end as int - 1));
        }
        if s[end - 1] == b {
            return Some(end - 1);
        }
        end = end - 1;
    }
    None
}

pub open spec fn starts_with_spec(s: Seq<u8>, p: Seq<u8>) -> bool {
    s.len() >= p.len() && s.subrange(0, p.len() as int) == p
}

pub fn starts_with(s: &[u8], p: &[u8]) -> (r: bool)
    ensures
        r == starts_with_spec(s@, p@),
{
    if s.len() < p.len() {
        return false;
    }
    let mut i: usize = 0;
    while i < p.len()
        invariant
            i <= p@.len() <= s@.len(),
            forall|j: int| 0 <= j < i ==> s@[j] == p@[j],
        decreases p@.len() - i,
    {
        if s[i] != p[i] {
            proof {
                if starts_with_spec(s@, p@) {
                    assert(s@.subrange(0, p@.len() as int)[i as int] == p@[i as int]);
                }
            }
            return false;
        }
        i = i + 1;
    }
    proof {
        assert(s@.subrange(0, p@.len() as int) =~= p@);
    }
    true
}

pub open spec fn ends_with_spec(s: Seq<u8>, p: Seq<u8>) -> bool {
    s.len() >= p.len() && s.subrange(s.len() - p.len(), s.len() as int) == p
}

pub fn ends_with(s: &[u8], p: &[u8]) -> (r: bool)
    ensures
        r == ends_with_spec(s@, p@),
{
    if s.len() < p.len() {
        return false;
    }
    let off: usize = s.len() - p.len();
    let mut i: usize = 0;
    while i < p.len()
        invariant
            i <= p@.len() <= s@.len(),
            off == s@.len() - p@.len(),
            forall|j: int| 0 <= j < i ==> s@[off + j] == p@[j],
        decreases p@.len() - i,
    {
        let j: usize = (s.len() - p.len()) + i;
        proof {
            assert(j == off + i);
        }
        if s[j] != p[i] {
            proof {
                if ends_with_spec(s@, p@) {
                    assert(s@.subrange(s@.len() - p@.len(), s@.len() as int)[i as int] == p@[
                        i as int
                    ]);
                }
            }
            return false;
        }
        i = i + 1;
    }
    proof {
        assert(s@.subrange(s@.len() - p@.len(), s@.len() as int) =~= p@);
    }
    true
}

pub proof fn lemma_find_byte_unique(s: Seq<u8>, b: u8, v: int)
    requires
        0 <= v < s.len(),
        s[v] == b,
        forall|j: int| 0 <= j < v ==> s[j] != b,
    ensures
        find_byte_spec(s, b) == Some(v),
{
    lemma_find_byte_props(s, b);
    match find_byte_spec(s, b) {
        Some(i) => {
            if i < v {
                assert(s[i] != b);
            }
            if i > v {
                assert(s[v] != b);
            }
        },
        None => {
            assert(s[v] != b);
        },
    }
}

/// The input cut at every newline byte; the terminator is not part of a
/// line, and a trailing newline opens no further line.
pub open spec fn split_lines_spec(s: Seq<u8>) -> Seq<Seq<u8>>
    decreases s.len(),
{
    if s.len() == 0 {
        Seq::empty()
    } else {
        match find_byte_spec(s, B_NL) {
            None => seq![s],
            Some(i) => {
                if 0 <= i < s.len() {
                    seq![s.subrange(0, i)] + split_lines_spec(s.subrange(i + 1, s.len() as int))
                } else {
                    seq![s]
                }
            },
        }
    }
}

pub fn split_lines(s: &[u8]) -> (r: Vec<Vec<u8>>)
    ensures
        Seq::new(r@.len(), |i: int| r@[i]@) == split_lines_spec(s@),
{
    let n: usize = s.len();
    let mut acc: Vec<Vec<u8>> = Vec::new();
    let mut cur: Vec<u8> = Vec::new();
    let mut pos: usize = 0;
    proof {
        assert(cur@ + s@.subrange(0, n as int) =~= s@);
        assert(Seq::new(acc@.len(), |i: int| acc@[i]@) =~= Seq::<Seq<u8>>::empty());
    }
    while pos < n
        invariant
            pos <= n,
            n == s@.len(),
            forall|j: int| 0 <= j < cur@.len() ==> cur@[j] != B_NL,
            split_lines_spec(s@) == Seq::new(acc@.len(), |i: int| acc@[i]@) + split_lines_spec(
                cur@ + s@.subrange(pos as int, n as int),
            ),
        decreases n - pos,
    {
        let b = s[pos];
        let ghost views = Seq::new(acc@.len(), |i: int| acc@[i]@);
        let ghost rest = cur@ + s@.subrange(pos as int, n as int);
        if b == B_NL {
            let ghost cv = cur@;
            proof {
                lemma_find_byte_unique(rest, B_NL, cv.len() as int);
                assert(rest.subrange(0, cv.len() as int) =~= cv);
                assert(rest.subrange(cv.len() as int + 1, rest.len() as int) =~= s@.subrange(
                    pos + 1,
                    n as int,
                ));
            }
            let done_line = cur;
            cur = Vec::new();
            acc.push(done_line);
            proof {
                assert(Seq::new(acc@.len(), |i: int| acc@[i]@) =~= views.push(cv));
                assert(cur@ + s@.subrange(pos + 1, n as int) =~= s@.subrange(pos + 1, n as int));
                assert(split_lines_spec(s@) =~= Seq::new(acc@.len(), |i: int| acc@[i]@)
                    + split_lines_spec(cur@ + s@.subrange(pos + 1, n as int)));
            }
        } else {
            cur.push(b);
            proof {
                assert(cur@ + s@.subrange(pos + 1, n as int) =~= rest);
            }
        }
        pos = pos + 1;
    }
    if cur.len() > 0 {
        proof {
            lemma_find_byte_props(cur@, B_NL);
            if find_byte_spec(cur@, B_NL) is Some {
                let k = find_byte_spec(cur@, B_NL)->Some_0;
                assert(cur@[k] != B_NL);
            }
            assert(cur@ + s@.subrange(n as int, n as int) =~= cur@);
            assert(split_lines_spec(cur@) =~= seq![cur@]);
        }
        let ghost views = Seq::new(acc@.len(), |i: int| acc@[i]@);
        let ghost cv = cur@;
        acc.push(cur);
        proof {
            assert(Seq::new(acc@.len(), |i: int| acc@[i]@) =~= views.push(cv));
            assert(split_lines_spec(s@) =~= Seq::new(acc@.len(), |i: int| acc@[i]@));
        }
    } else {
        proof {
            assert(cur@ + s@.subrange(n as int, n as int) =~= cur@);
            assert(split_lines_spec(cur@) =~= Seq::<Seq<u8>>::empty());
            assert(split_lines_spec(s@) =~= Seq::new(acc@.len(), |i: int| acc@[i]@));
        }
    }
    acc
}

/// `;` replaced by `:` throughout.
pub open spec fn replace_semi_spec(s: Seq<u8>) -> Seq<u8> {
    s.map(|_i: int, b: u8| if b == B_SEMI { B_COLON } else { b })
}

pub fn replace_semi(s: &[u8]) -> (r: Vec<u8>)
    ensures
        r@ == replace_semi_spec(s@),
{
    let mut r: Vec<u8> = Vec::new();
    let mut i: usize = 0;
    while i < s.len()
        invariant
            i <= s@.len(),
            r@ == replace_semi_spec(s@.subrange(0, i as int)),
        decreases s@.len() - i,
    {
        let b = s[i];
        if b == B_SEMI {
            r.push(B_COLON);
        } else {
            r.push(b);
        }
        proof {
            assert(replace_semi_spec(s@.subrange(0, (i + 1) as int)) =~= replace_semi_spec(
                s@.subrange(0, i as int),
            ).push(if s@[i as int] == B_SEMI {
                B_COLON
            } else {
                s@[i as int]
            }));
        }
        i = i + 1;
    }
    proof {
        assert(s@.subrange(0, s@.len() as int) =~= s@);
    }
    r
}

} // verus!
