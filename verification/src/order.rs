use vstd::prelude::*;
use vstd::string::StrSliceExecFns;

verus! {

/// Result of a comparison.
#[derive(PartialEq, Eq, Structural, Clone, Copy, Debug)]
pub enum Comparison {
    Less,
    Equal,
    Greater,
}

/// Order of two integers as a `Comparison`.
pub open spec fn cmp_int(x: int, y: int) -> Comparison {
    if x < y {
        Comparison::Less
    } else if x > y {
        Comparison::Greater
    } else {
        Comparison::Equal
    }
}

/// The mirror image of a comparison, for swapped arguments.
pub open spec fn flip(c: Comparison) -> Comparison {
    match c {
        Comparison::Less => Comparison::Greater,
        Comparison::Equal => Comparison::Equal,
        Comparison::Greater => Comparison::Less,
    }
}

pub open spec fn is_digit(c: char) -> bool {
    48 <= (c as u32) <= 57
}

/// Decide whether `c` is an ASCII digit.
pub fn is_digit_char(c: char) -> (r: bool)
    ensures
        r == is_digit(c),
{
    let u = c as u32;
    48 <= u && u <= 57
}

pub open spec fn all_digits(s: Seq<char>) -> bool {
    forall|i: int| 0 <= i < s.len() ==> is_digit(#[trigger] s[i])
}

pub open spec fn pow10(n: nat) -> int
    decreases n,
{
    if n == 0 {
        1
    } else {
        10 * pow10((n - 1) as nat)
    }
}

proof fn lemma_pow10_pos(n: nat)
    ensures
        pow10(n) >= 1,
    decreases n,
{
    if n > 0 {
        lemma_pow10_pos((n - 1) as nat);
    }
}

proof fn lemma_pow10_mono(m: nat, n: nat)
    requires
        m <= n,
    ensures
        pow10(m) <= pow10(n),
    decreases n,
{
    if m < n {
        lemma_pow10_mono(m, (n - 1) as nat);
        lemma_pow10_pos((n - 1) as nat);
    }
}

/// Numeric value of a run of digits; leading zeros do not change it.
pub open spec fn num_val(s: Seq<char>) -> int
    decreases s.len(),
{
    if s.len() == 0 {
        0
    } else {
        num_val(s.drop_last()) * 10 + ((s.last() as u32) - 48)
    }
}

proof fn lemma_num_val_nonneg(s: Seq<char>)
    requires
        all_digits(s),
    ensures
        num_val(s) >= 0,
    decreases s.len(),
{
    if s.len() > 0 {
        assert(all_digits(s.drop_last())) by {
            assert(forall|i: int| 0 <= i < s.len() - 1 ==> s.drop_last()[i] == s[i]);
        }
        lemma_num_val_nonneg(s.drop_last());
    }
}

proof fn lemma_num_val_bound(s: Seq<char>)
    requires
        all_digits(s),
    ensures
        0 <= num_val(s) < pow10(s.len()),
    decreases s.len(),
{
    if s.len() == 0 {
    } else {
        assert(all_digits(s.drop_last())) by {
            assert(forall|i: int| 0 <= i < s.len() - 1 ==> s.drop_last()[i] == s[i]);
        }
        lemma_num_val_bound(s.drop_last());
        assert(is_digit(s.last()));
    }
}

proof fn lemma_num_val_msb(s: Seq<char>)
    requires
        all_digits(s),
        s.len() >= 1,
    ensures
        num_val(s) == ((s[0] as u32) - 48) * pow10((s.len() - 1) as nat) + num_val(s.skip(1)),
    decreases s.len(),
{
    let d0 = (s[0] as u32) - 48;
    if s.len() == 1 {
        assert(s.skip(1) =~= Seq::<char>::empty());
        assert(s.drop_last() =~= Seq::<char>::empty());
        assert(num_val(s.drop_last()) == 0);
        assert(num_val(s.skip(1)) == 0);
        assert(s.last() == s[0]);
        assert(pow10(0nat) == 1);
    } else {
        let dl = s.drop_last();
        assert(all_digits(dl)) by {
            assert(forall|i: int| 0 <= i < s.len() - 1 ==> dl[i] == s[i]);
        }
        lemma_num_val_msb(dl);
        assert(s.skip(1).drop_last() =~= dl.skip(1));
        assert(s.skip(1).last() == s.last());
        let p = pow10((s.len() - 2) as nat);
        // num_val(s) == num_val(dl) * 10 + d
        // num_val(dl) == d0 * p + num_val(dl.skip(1))
        // num_val(s.skip(1)) == num_val(dl.skip(1)) * 10 + d
        assert((d0 * p + num_val(dl.skip(1))) * 10 == d0 * (10 * p) + num_val(dl.skip(1)) * 10)
            by (nonlinear_arith);
        assert(pow10((s.len() - 1) as nat) == 10 * p);
    }
}

proof fn lemma_num_val_all_zero(s: Seq<char>)
    requires
        forall|i: int| 0 <= i < s.len() ==> (#[trigger] s[i]) as u32 == 48,
    ensures
        num_val(s) == 0,
    decreases s.len(),
{
    if s.len() > 0 {
        assert(forall|i: int| 0 <= i < s.len() - 1 ==> s.drop_last()[i] == s[i]);
        lemma_num_val_all_zero(s.drop_last());
        assert(s.last() as u32 == 48);
    }
}

/// Stripping leading zeros leaves the numeric value unchanged.
proof fn lemma_num_val_zero_prefix(s: Seq<char>, m: int)
    requires
        0 <= m <= s.len(),
        forall|j: int| 0 <= j < m ==> (#[trigger] s[j]) as u32 == 48,
    ensures
        num_val(s.skip(m)) == num_val(s),
    decreases s.len(),
{
    if m == s.len() {
        assert(s.skip(m) =~= Seq::<char>::empty());
        lemma_num_val_all_zero(s);
    } else {
        let dl = s.drop_last();
        assert(forall|i: int| 0 <= i < s.len() - 1 ==> dl[i] == s[i]);
        lemma_num_val_zero_prefix(dl, m);
        assert(s.skip(m).drop_last() =~= dl.skip(m));
        assert(s.skip(m).last() == s.last());
    }
}

/// A shorter digit run without a leading zero names a smaller value.
proof fn lemma_num_val_lt_width(a: Seq<char>, b: Seq<char>)
    requires
        all_digits(a),
        all_digits(b),
        a.len() < b.len(),
        (b[0] as u32) != 48,
    ensures
        num_val(a) < num_val(b),
{
    lemma_num_val_bound(a);
    lemma_num_val_msb(b);
    let p = pow10((b.len() - 1) as nat);
    let d0 = (b[0] as u32) - 48;
    assert(is_digit(b[0]));
    assert(d0 >= 1);
    lemma_pow10_pos((b.len() - 1) as nat);
    assert(d0 * p >= p) by (nonlinear_arith)
        requires
            d0 >= 1,
            p >= 1,
    ;
    assert(all_digits(b.skip(1))) by {
        assert(forall|i: int| 0 <= i < b.len() - 1 ==> b.skip(1)[i] == b[i + 1]);
    }
    lemma_num_val_nonneg(b.skip(1));
    lemma_pow10_mono(a.len(), (b.len() - 1) as nat);
}

/// Equal-width digit runs order by their first differing digit.
proof fn lemma_num_val_lex(a: Seq<char>, b: Seq<char>, i: int)
    requires
        all_digits(a),
        all_digits(b),
        a.len() == b.len(),
        0 <= i < a.len(),
        forall|j: int| 0 <= j < i ==> a[j] == b[j],
        (a[i] as u32) < (b[i] as u32),
    ensures
        num_val(a) < num_val(b),
    decreases i,
{
    lemma_num_val_msb(a);
    lemma_num_val_msb(b);
    let p = pow10((a.len() - 1) as nat);
    let a0 = (a[0] as u32) - 48;
    let b0 = (b[0] as u32) - 48;
    let ta = a.skip(1);
    let tb = b.skip(1);
    assert(all_digits(ta)) by {
        assert(forall|j: int| 0 <= j < a.len() - 1 ==> ta[j] == a[j + 1]);
    }
    assert(all_digits(tb)) by {
        assert(forall|j: int| 0 <= j < b.len() - 1 ==> tb[j] == b[j + 1]);
    }
    if i == 0 {
        lemma_num_val_bound(ta);
        lemma_num_val_nonneg(tb);
        lemma_pow10_pos((a.len() - 1) as nat);
        assert(a0 * p + p <= b0 * p) by (nonlinear_arith)
            requires
                a0 + 1 <= b0,
                p >= 1,
        ;
    } else {
        assert(forall|j: int| 0 <= j < i - 1 ==> ta[j] == tb[j]) by {
            assert(forall|j: int| 0 <= j < a.len() - 1 ==> ta[j] == a[j + 1]);
            assert(forall|j: int| 0 <= j < b.len() - 1 ==> tb[j] == b[j + 1]);
        }
        assert(ta[i - 1] == a[i] && tb[i - 1] == b[i]);
        lemma_num_val_lex(ta, tb, i - 1);
        assert(a0 == b0);
    }
}

/// Compare two runs of digits by numeric value, exactly: leading zeros are
/// stripped, then a longer run is larger and equal-width runs order by their
/// first differing digit. No value is ever parsed into a machine word, so no
/// width can overflow.
fn cmp_digit_segments(a: &str, b: &str) -> (r: Comparison)
    requires
        all_digits(a@),
        all_digits(b@),
    ensures
        r == cmp_int(num_val(a@), num_val(b@)),
{
    let la = a.unicode_len();
    let lb = b.unicode_len();
    let mut i: usize = 0;
    while i < la && a.get_char(i) as u32 == 48
        invariant
            i <= la,
            la == a@.len(),
            forall|j: int| 0 <= j < i ==> (#[trigger] a@[j]) as u32 == 48,
        decreases la - i,
    {
        i += 1;
    }
    let mut j: usize = 0;
    while j < lb && b.get_char(j) as u32 == 48
        invariant
            j <= lb,
            lb == b@.len(),
            forall|t: int| 0 <= t < j ==> (#[trigger] b@[t]) as u32 == 48,
        decreases lb - j,
    {
        j += 1;
    }
    proof {
        lemma_num_val_zero_prefix(a@, i as int);
        lemma_num_val_zero_prefix(b@, j as int);
        assert(all_digits(a@.skip(i as int))) by {
            assert(forall|t: int| 0 <= t < a@.len() - i ==> a@.skip(i as int)[t] == a@[t + i]);
        }
        assert(all_digits(b@.skip(j as int))) by {
            assert(forall|t: int| 0 <= t < b@.len() - j ==> b@.skip(j as int)[t] == b@[t + j]);
        }
    }
    let ea = la - i;
    let eb = lb - j;
    if ea < eb {
        proof {
            lemma_num_val_lt_width(a@.skip(i as int), b@.skip(j as int));
        }
        return Comparison::Less;
    }
    if ea > eb {
        proof {
            lemma_num_val_lt_width(b@.skip(j as int), a@.skip(i as int));
        }
        return Comparison::Greater;
    }
    let mut t: usize = 0;
    while t < ea
        invariant
            t <= ea,
            ea == eb,
            i + ea == la,
            j + eb == lb,
            la == a@.len(),
            lb == b@.len(),
            all_digits(a@.skip(i as int)),
            all_digits(b@.skip(j as int)),
            num_val(a@.skip(i as int)) == num_val(a@),
            num_val(b@.skip(j as int)) == num_val(b@),
            forall|u: int| 0 <= u < t ==> #[trigger] a@.skip(i as int)[u] == b@.skip(j as int)[u],
        decreases ea - t,
    {
        let ca = a.get_char(i + t);
        let cb = b.get_char(j + t);
        if (ca as u32) < (cb as u32) {
            proof {
                lemma_num_val_lex(a@.skip(i as int), b@.skip(j as int), t as int);
            }
            return Comparison::Less;
        }
        if (ca as u32) > (cb as u32) {
            proof {
                lemma_num_val_lex(b@.skip(j as int), a@.skip(i as int), t as int);
            }
            return Comparison::Greater;
        }
        proof {
            assert(ca as u32 == cb as u32);
            assert(ca == cb) by {
                assert(a@[i + t] as u32 == b@[j + t] as u32);
            }
        }
        t += 1;
    }
    proof {
        assert(a@.skip(i as int) =~= b@.skip(j as int));
    }
    Comparison::Equal
}

/// Lexicographic comparison by code point; a strict prefix sorts first.
#[verifier::opaque]
pub open spec fn lex_cmp(a: Seq<char>, b: Seq<char>) -> Comparison
    decreases a.len(),
{
    if a.len() == 0 && b.len() == 0 {
        Comparison::Equal
    } else if a.len() == 0 {
        Comparison::Less
    } else if b.len() == 0 {
        Comparison::Greater
    } else if (a[0] as u32) < (b[0] as u32) {
        Comparison::Less
    } else if (a[0] as u32) > (b[0] as u32) {
        Comparison::Greater
    } else {
        lex_cmp(a.skip(1), b.skip(1))
    }
}

/// Compare two strings by code point.
pub fn str_lex_cmp(a: &str, b: &str) -> (r: Comparison)
    ensures
        r == lex_cmp(a@, b@),
{
    let la = a.unicode_len();
    let lb = b.unicode_len();
    let mut i: usize = 0;
    proof {
        reveal(lex_cmp);
        assert(a@.skip(0) =~= a@);
        assert(b@.skip(0) =~= b@);
    }
    while i < la && i < lb
        invariant
            i <= la,
            i <= lb,
            la == a@.len(),
            lb == b@.len(),
            lex_cmp(a@, b@) == lex_cmp(a@.skip(i as int), b@.skip(i as int)),
        decreases la - i,
    {
        let ca = a.get_char(i);
        let cb = b.get_char(i);
        proof {
            reveal(lex_cmp);
        }
        if (ca as u32) < (cb as u32) {
            return Comparison::Less;
        }
        if (ca as u32) > (cb as u32) {
            return Comparison::Greater;
        }
        proof {
            assert(a@.skip(i as int).skip(1) =~= a@.skip(i as int + 1));
            assert(b@.skip(i as int).skip(1) =~= b@.skip(i as int + 1));
        }
        i += 1;
    }
    proof {
        reveal(lex_cmp);
    }
    if la < lb {
        Comparison::Less
    } else if la > lb {
        Comparison::Greater
    } else {
        Comparison::Equal
    }
}

/// Length of the leading run of digits.
pub open spec fn digit_run(s: Seq<char>) -> nat
    decreases s.len(),
{
    if s.len() > 0 && is_digit(s[0]) {
        1 + digit_run(s.skip(1))
    } else {
        0
    }
}

/// Length of the leading run of non-digits.
pub open spec fn other_run(s: Seq<char>) -> nat
    decreases s.len(),
{
    if s.len() > 0 && !is_digit(s[0]) {
        1 + other_run(s.skip(1))
    } else {
        0
    }
}

/// Length of the first maximal segment: a digit run if the string starts with
/// a digit, a non-digit run otherwise.
pub open spec fn seg_len(s: Seq<char>) -> nat {
    if s.len() == 0 {
        0
    } else if is_digit(s[0]) {
        digit_run(s)
    } else {
        other_run(s)
    }
}

proof fn lemma_digit_run_split(s: Seq<char>, m: int)
    requires
        0 <= m <= s.len(),
        forall|j: int| 0 <= j < m ==> is_digit(#[trigger] s[j]),
    ensures
        digit_run(s) == m + digit_run(s.skip(m)),
    decreases m,
{
    if m > 0 {
        assert(is_digit(s[0]));
        assert(forall|j: int| 0 <= j < m - 1 ==> s.skip(1)[j] == s[j + 1]);
        lemma_digit_run_split(s.skip(1), m - 1);
        assert(s.skip(1).skip(m - 1) =~= s.skip(m));
    } else {
        assert(s.skip(0) =~= s);
    }
}

proof fn lemma_other_run_split(s: Seq<char>, m: int)
    requires
        0 <= m <= s.len(),
        forall|j: int| 0 <= j < m ==> !is_digit(#[trigger] s[j]),
    ensures
        other_run(s) == m + other_run(s.skip(m)),
    decreases m,
{
    if m > 0 {
        assert(!is_digit(s[0]));
        assert(forall|j: int| 0 <= j < m - 1 ==> s.skip(1)[j] == s[j + 1]);
        lemma_other_run_split(s.skip(1), m - 1);
        assert(s.skip(1).skip(m - 1) =~= s.skip(m));
    } else {
        assert(s.skip(0) =~= s);
    }
}

/// The first segment of a non-empty string is non-empty, stays within the
/// string, consists of characters of one kind, and is maximal.
proof fn lemma_seg_len_props(s: Seq<char>)
    requires
        s.len() > 0,
    ensures
        1 <= seg_len(s) <= s.len(),
        forall|i: int| 0 <= i < seg_len(s) ==> is_digit(#[trigger] s[i]) == is_digit(s[0]),
        seg_len(s) < s.len() ==> is_digit(s[seg_len(s) as int]) != is_digit(s[0]),
    decreases s.len(),
{
    let t = s.skip(1);
    assert(forall|j: int| 0 <= j < s.len() - 1 ==> t[j] == s[j + 1]);
    if s.len() == 1 {
        assert(t =~= Seq::<char>::empty());
        assert(digit_run(t) == 0);
        assert(other_run(t) == 0);
        assert(seg_len(s) == 1);
    } else {
        if is_digit(s[0]) == is_digit(s[1]) {
            lemma_seg_len_props(t);
            assert(seg_len(s) == 1 + seg_len(t));
            assert forall|i: int| 0 <= i < seg_len(s) implies is_digit(#[trigger] s[i]) == is_digit(
                s[0],
            ) by {
                if i >= 1 {
                    assert(s[i] == t[i - 1]);
                    assert(is_digit(t[i - 1]) == is_digit(t[0]));
                }
            }
        } else {
            if is_digit(s[0]) {
                assert(digit_run(t) == 0);
                assert(digit_run(s) == 1);
            } else {
                assert(other_run(t) == 0);
                assert(other_run(s) == 1);
            }
            assert(seg_len(s) == 1);
        }
    }
}

/// Natural ("human") comparison: maximal digit runs compare by numeric value,
/// numeric ties fall through to the following segments; any other pair of
/// leading segments compares lexicographically; a string whose segments run
/// out first sorts first.
#[verifier::opaque]
pub open spec fn nat_cmp(a: Seq<char>, b: Seq<char>) -> Comparison
    decreases a.len() + b.len(),
    via nat_cmp_decreases
{
    if a.len() == 0 && b.len() == 0 {
        Comparison::Equal
    } else if a.len() == 0 {
        Comparison::Less
    } else if b.len() == 0 {
        Comparison::Greater
    } else {
        let la = seg_len(a) as int;
        let lb = seg_len(b) as int;
        let c = if is_digit(a[0]) && is_digit(b[0]) {
            cmp_int(num_val(a.take(la)), num_val(b.take(lb)))
        } else {
            lex_cmp(a.take(la), b.take(lb))
        };
        if c != Comparison::Equal {
            c
        } else {
            nat_cmp(a.skip(la), b.skip(lb))
        }
    }
}

#[via_fn]
proof fn nat_cmp_decreases(a: Seq<char>, b: Seq<char>) {
    reveal(nat_cmp);
    if a.len() > 0 && b.len() > 0 {
        lemma_seg_len_props(a);
        lemma_seg_len_props(b);
    }
}

/// End of the segment of `s` that starts at `start`.
fn seg_end(s: &str, start: usize) -> (e: usize)
    requires
        start < s@.len(),
    ensures
        start < e <= s@.len(),
        e - start == seg_len(s@.skip(start as int)),
        forall|t: int| start <= t < e ==> is_digit(#[trigger] s@[t]) == is_digit(s@[start as int]),
{
    let n = s.unicode_len();
    let digits = is_digit_char(s.get_char(start));
    let mut e = start + 1;
    while e < n && is_digit_char(s.get_char(e)) == digits
        invariant
            start < e <= n,
            n == s@.len(),
            digits == is_digit(s@[start as int]),
            forall|t: int| start <= t < e ==> is_digit(#[trigger] s@[t]) == digits,
        decreases n - e,
    {
        e += 1;
    }
    proof {
        let tail = s@.skip(start as int);
        let m = e - start;
        assert(forall|j: int| 0 <= j < tail.len() ==> tail[j] == s@[j + start]);
        assert(tail.skip(m as int) =~= s@.skip(e as int));
        if digits {
            lemma_digit_run_split(tail, m as int);
            assert(digit_run(tail.skip(m as int)) == 0);
        } else {
            lemma_other_run_split(tail, m as int);
            assert(other_run(tail.skip(m as int)) == 0);
        }
    }
    e
}

/// Compare two file names in natural order: `img2` sorts before `img10`.
pub fn natural_sort(a: &str, b: &str) -> (r: Comparison)
    ensures
        r == nat_cmp(a@, b@),
{
    let la = a.unicode_len();
    let lb = b.unicode_len();
    let mut i: usize = 0;
    let mut j: usize = 0;
    proof {
        reveal(nat_cmp);
        assert(a@.skip(0) =~= a@);
        assert(b@.skip(0) =~= b@);
    }
    loop
        invariant
            i <= la,
            j <= lb,
            la == a@.len(),
            lb == b@.len(),
            nat_cmp(a@, b@) == nat_cmp(a@.skip(i as int), b@.skip(j as int)),
        decreases la - i + lb - j,
    {
        proof {
            reveal(nat_cmp);
        }
        if i == la && j == lb {
            proof {
                assert(a@.skip(i as int) =~= Seq::<char>::empty());
                assert(b@.skip(j as int) =~= Seq::<char>::empty());
            }
            return Comparison::Equal;
        }
        if i == la {
            proof {
                assert(a@.skip(i as int) =~= Seq::<char>::empty());
            }
            return Comparison::Less;
        }
        if j == lb {
            proof {
                assert(b@.skip(j as int) =~= Seq::<char>::empty());
            }
            return Comparison::Greater;
        }
        let ea = seg_end(a, i);
        let eb = seg_end(b, j);
        let sa = a.substring_char(i, ea);
        let sb = b.substring_char(j, eb);
        let da = is_digit_char(a.get_char(i));
        let db = is_digit_char(b.get_char(j));
        proof {
            let ta = a@.skip(i as int);
            let tb = b@.skip(j as int);
            assert(forall|u: int| 0 <= u < ta.len() ==> ta[u] == a@[u + i]);
            assert(forall|u: int| 0 <= u < tb.len() ==> tb[u] == b@[u + j]);
            assert(sa@ =~= ta.take(seg_len(ta) as int));
            assert(sb@ =~= tb.take(seg_len(tb) as int));
            if da && db {
                assert(all_digits(sa@)) by {
                    assert(forall|u: int| 0 <= u < sa@.len() ==> sa@[u] == a@[u + i]);
                }
                assert(all_digits(sb@)) by {
                    assert(forall|u: int| 0 <= u < sb@.len() ==> sb@[u] == b@[u + j]);
                }
            }
            assert(ta.skip(seg_len(ta) as int) =~= a@.skip(ea as int));
            assert(tb.skip(seg_len(tb) as int) =~= b@.skip(eb as int));
        }
        let c = if da && db {
            cmp_digit_segments(sa, sb)
        } else {
            str_lex_cmp(sa, sb)
        };
        if matches!(c, Comparison::Equal) {
            i = ea;
            j = eb;
        } else {
            return c;
        }
    }
}

proof fn lemma_lex_refl(a: Seq<char>)
    ensures
        lex_cmp(a, a) == Comparison::Equal,
    decreases a.len(),
{
    reveal(lex_cmp);
    if a.len() > 0 {
        lemma_lex_refl(a.skip(1));
    }
}

/// Swapping the operands of the lexicographic comparison mirrors its result.
pub proof fn lemma_lex_flip(a: Seq<char>, b: Seq<char>)
    ensures
        lex_cmp(b, a) == flip(lex_cmp(a, b)),
    decreases a.len(),
{
    reveal(lex_cmp);
    if a.len() > 0 && b.len() > 0 && (a[0] as u32) == (b[0] as u32) {
        lemma_lex_flip(a.skip(1), b.skip(1));
    }
}

/// Transitivity of the lexicographic comparison, weak and strict at once.
pub proof fn lemma_lex_trans(a: Seq<char>, b: Seq<char>, c: Seq<char>)
    requires
        lex_cmp(a, b) != Comparison::Greater,
        lex_cmp(b, c) != Comparison::Greater,
    ensures
        lex_cmp(a, c) != Comparison::Greater,
        lex_cmp(a, b) == Comparison::Less || lex_cmp(b, c) == Comparison::Less ==> lex_cmp(a, c)
            == Comparison::Less,
    decreases a.len(),
{
    reveal(lex_cmp);
    if a.len() > 0 && b.len() > 0 && c.len() > 0 && (a[0] as u32) == (b[0] as u32) && (b[0] as u32)
        == (c[0] as u32) {
        lemma_lex_trans(a.skip(1), b.skip(1), c.skip(1));
    }
}

/// Transitivity of the natural comparison: when `a` sorts no later than `b`
/// and `b` no later than `c`, then `a` sorts no later than `c`. Digit code
/// points are contiguous, so no non-digit character can lie strictly between
/// two digits; that is what keeps the mixed segment comparisons in line.
pub proof fn lemma_nat_cmp_trans(a: Seq<char>, b: Seq<char>, c: Seq<char>)
    requires
        nat_cmp(a, b) != Comparison::Greater,
        nat_cmp(b, c) != Comparison::Greater,
    ensures
        nat_cmp(a, c) != Comparison::Greater,
    decreases a.len() + b.len() + c.len(),
{
    reveal(nat_cmp);
    reveal(lex_cmp);
    if a.len() > 0 {
        assert(b.len() > 0);
        assert(c.len() > 0);
        lemma_seg_len_props(a);
        lemma_seg_len_props(b);
        lemma_seg_len_props(c);
        let la = seg_len(a) as int;
        let lb = seg_len(b) as int;
        let lc = seg_len(c) as int;
        let sa = a.take(la);
        let sb = b.take(lb);
        let sc = c.take(lc);
        assert(sa[0] == a[0] && sb[0] == b[0] && sc[0] == c[0]);
        let da = is_digit(a[0]);
        let db = is_digit(b[0]);
        let dc = is_digit(c[0]);
        let cab = if da && db {
            cmp_int(num_val(sa), num_val(sb))
        } else {
            lex_cmp(sa, sb)
        };
        let cbc = if db && dc {
            cmp_int(num_val(sb), num_val(sc))
        } else {
            lex_cmp(sb, sc)
        };
        let cac = if da && dc {
            cmp_int(num_val(sa), num_val(sc))
        } else {
            lex_cmp(sa, sc)
        };
        assert(cab != Comparison::Greater);
        assert(cbc != Comparison::Greater);
        if cab == Comparison::Equal && cbc == Comparison::Equal {
            assert(da == db && db == dc);
            if !da {
                lemma_lex_trans(sa, sb, sc);
            }
            if cac == Comparison::Equal {
                lemma_nat_cmp_trans(a.skip(la), b.skip(lb), c.skip(lc));
            }
        } else {
            if !da && !db && !dc {
                lemma_lex_trans(sa, sb, sc);
            }
            assert(cac == Comparison::Less);
        }
    }
}

/// Comparing a string with itself yields `Equal`.
pub proof fn lemma_nat_cmp_refl(a: Seq<char>)
    ensures
        nat_cmp(a, a) == Comparison::Equal,
    decreases a.len(),
{
    reveal(nat_cmp);
    if a.len() > 0 {
        lemma_seg_len_props(a);
        let la = seg_len(a) as int;
        if !is_digit(a[0]) {
            lemma_lex_refl(a.take(la));
        }
        lemma_nat_cmp_refl(a.skip(la));
    }
}

/// Swapping the operands of the natural comparison mirrors its result.
pub proof fn lemma_nat_cmp_flip(a: Seq<char>, b: Seq<char>)
    ensures
        nat_cmp(b, a) == flip(nat_cmp(a, b)),
    decreases a.len() + b.len(),
{
    reveal(nat_cmp);
    if a.len() > 0 && b.len() > 0 {
        lemma_seg_len_props(a);
        lemma_seg_len_props(b);
        let la = seg_len(a) as int;
        let lb = seg_len(b) as int;
        if is_digit(a[0]) && is_digit(b[0]) {
            if num_val(a.take(la)) == num_val(b.take(lb)) {
                lemma_nat_cmp_flip(a.skip(la), b.skip(lb));
            }
        } else {
            lemma_lex_flip(a.take(la), b.take(lb));
            if lex_cmp(a.take(la), b.take(lb)) == Comparison::Equal {
                lemma_nat_cmp_flip(a.skip(la), b.skip(lb));
            }
        }
    }
}

} // verus!
