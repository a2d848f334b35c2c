use vstd::prelude::*;
use vstd::std_specs::iter::IteratorSpec;

verus! {

broadcast use vstd::std_specs::vec::group_vec_axioms, vstd::seq::group_seq_axioms;

/// The characters of `s`, in order.
pub(crate) fn chars_of(s: &str) -> (r: Vec<char>)
    ensures
        r@ == s@,
{
    broadcast use vstd::string::group_string_axioms;
    let mut it = s.chars();
    let mut out: Vec<char> = Vec::new();
    assert(out@ + it.remaining() =~= s@);
    loop
        invariant
            out@ + it.remaining() == s@,
            it.obeys_prophetic_iter_laws(),
        ensures
            out@ == s@,
        decreases s@.len() - out@.len(),
    {
        match it.next() {
            Some(c) => {
                assert(out@.push(c) + it.remaining() =~= s@);
                out.push(c);
            },
            None => {
                assert(out@ =~= s@);
                break;
            },
        }
    }
    out
}

/// Relies on `String::from_iter` over chars: the string of the characters `v`.
#[verifier::external_body]
pub(crate) fn string_of(v: &[char]) -> (r: String)
    ensures
        r@ == v@,
{
    String::from_iter(v.iter())
}

/// Does `pat` occur in `text` at position `i`?
pub open spec fn occurs_at(text: Seq<char>, i: int, pat: Seq<char>) -> bool {
    0 <= i && i + pat.len() <= text.len() && text.subrange(i, i + pat.len()) == pat
}

/// `text` with every occurrence of `pat` replaced by `rep`, scanning from the
/// left and resuming after each replaced occurrence. An empty `pat` leaves
/// `text` as it is.
pub open spec fn replace_all(text: Seq<char>, pat: Seq<char>, rep: Seq<char>) -> Seq<char>
    decreases text.len(),
{
    if pat.len() == 0 || text.len() == 0 {
        text
    } else if occurs_at(text, 0, pat) {
        rep + replace_all(text.subrange(pat.len() as int, text.len() as int), pat, rep)
    } else {
        seq![text[0]] + replace_all(text.drop_first(), pat, rep)
    }
}

/// Does `pat` occur anywhere in `text`?
pub open spec fn contains(text: Seq<char>, pat: Seq<char>) -> bool {
    exists|i: int| occurs_at(text, i, pat)
}

fn occurs_at_exec(text: &Vec<char>, i: usize, pat: &Vec<char>) -> (r: bool)
    requires
        i <= text.len(),
    ensures
        r == occurs_at(text@, i as int, pat@),
{
    if pat.len() > text.len() - i {
        return false;
    }
    let mut j: usize = 0;
    while j < pat.len()
        invariant
            i + pat.len() <= text.len(),
            j <= pat.len(),
            forall|k: int| 0 <= k < j ==> text@[i + k] == pat@[k],
        decreases pat.len() - j,
    {
        if text[i + j] != pat[j] {
            assert(text@.subrange(i as int, i + pat.len())[j as int] != pat@[j as int]);
            return false;
        }
        j = j + 1;
    }
    assert(text@.subrange(i as int, i + pat.len()) =~= pat@);
    true
}

/// `text` with every occurrence of `pat` replaced by `rep`.
pub fn replace_all_chars(text: &Vec<char>, pat: &Vec<char>, rep: &Vec<char>) -> (r: Vec<char>)
    ensures
        r@ == replace_all(text@, pat@, rep@),
{
    if pat.len() == 0 {
        return text.clone();
    }
    let mut out: Vec<char> = Vec::new();
    let mut i: usize = 0;
    assert(text@.subrange(0, text.len() as int) =~= text@);
    assert(out@ + text@ =~= text@);
    while i < text.len()
        invariant
            pat.len() > 0,
            i <= text.len(),
            out@ + replace_all(text@.subrange(i as int, text.len() as int), pat@, rep@)
                == replace_all(text@, pat@, rep@),
        decreases text.len() - i,
    {
        let ghost rest = text@.subrange(i as int, text.len() as int);
        if occurs_at_exec(text, i, pat) {
            proof {
                assert(rest.subrange(0, pat.len() as int) =~= text@.subrange(i as int, i + pat.len()));
                assert(rest.subrange(pat.len() as int, rest.len() as int)
                    =~= text@.subrange(i + pat.len(), text.len() as int));
                assert(out@ + rep@ + replace_all(text@.subrange(i + pat.len(), text.len() as int), pat@, rep@)
                    =~= out@ + replace_all(rest, pat@, rep@));
            }
            let mut k: usize = 0;
            let ghost out0 = out@;
            while k < rep.len()
                invariant
                    k <= rep.len(),
                    out@ == out0 + rep@.subrange(0, k as int),
                decreases rep.len() - k,
            {
                out.push(rep[k]);
                proof {
                    assert(rep@.subrange(0, k + 1) =~= rep@.subrange(0, k as int).push(rep@[k as int]));
                }
                k = k + 1;
            }
            assert(rep@.subrange(0, rep.len() as int) =~= rep@);
            i = i + pat.len();
        } else {
            proof {
                assert(!occurs_at(rest, 0, pat@)) by {
                    if occurs_at(rest, 0, pat@) {
                        assert(rest.subrange(0, pat.len() as int) =~= text@.subrange(i as int, i + pat.len()));
                    }
                }
                assert(rest.drop_first() =~= text@.subrange(i + 1, text.len() as int));
                assert(out@.push(text@[i as int]) + replace_all(rest.drop_first(), pat@, rep@)
                    =~= out@ + replace_all(rest, pat@, rep@));
            }
            out.push(text[i]);
            i = i + 1;
        }
    }
    assert(out@ + replace_all(text@.subrange(i as int, text.len() as int), pat@, rep@) =~= out@);
    out
}

/// Replacing in a text in which the pattern does not occur changes nothing.
pub proof fn lemma_replace_absent(text: Seq<char>, pat: Seq<char>, rep: Seq<char>)
    requires
        !contains(text, pat),
    ensures
        replace_all(text, pat, rep) == text,
    decreases text.len(),
{
    if pat.len() == 0 || text.len() == 0 {
    } else {
        assert(!occurs_at(text, 0, pat));
        let t = text.drop_first();
        assert(!contains(t, pat)) by {
            if contains(t, pat) {
                let i = choose|i: int| occurs_at(t, i, pat);
                assert(text.subrange(i + 1, i + 1 + pat.len()) =~= t.subrange(i, i + pat.len()));
                assert(occurs_at(text, i + 1, pat));
            }
        }
        lemma_replace_absent(t, pat, rep);
        assert(seq![text[0]] + t =~= text);
    }
}

/// The dot-separated segments of `p`, in order: `a.b` has `a` and `b`, the
/// empty text one empty segment, and `a..b` an empty segment between two dots.
pub open spec fn segments(p: Seq<char>) -> Seq<Seq<char>>
    decreases p.len(),
{
    if p.len() == 0 {
        seq![Seq::empty()]
    } else {
        let init = segments(p.drop_last());
        if p.last() == '.' {
            init.push(Seq::empty())
        } else {
            init.update(init.len() - 1, init.last().push(p.last()))
        }
    }
}

pub proof fn lemma_segments_nonempty(p: Seq<char>)
    ensures
        segments(p).len() >= 1,
    decreases p.len(),
{
    if p.len() > 0 {
        lemma_segments_nonempty(p.drop_last());
    }
}

/// The dot-separated segments of `path`.
pub fn split_path(path: &str) -> (r: Vec<String>)
    ensures
        r@.len() == segments(path@).len(),
        forall|i: int| 0 <= i < r@.len() ==> #[trigger] r@[i]@ == segments(path@)[i],
{
    let chars = chars_of(path);
    let mut done: Vec<String> = Vec::new();
    let mut cur: Vec<char> = Vec::new();
    let mut i: usize = 0;
    while i < chars.len()
        invariant
            i <= chars.len(),
            chars@ == path@,
            segments(chars@.subrange(0, i as int)).len() == done@.len() + 1,
            forall|j: int| 0 <= j < done@.len() ==>
                #[trigger] done@[j]@ == segments(chars@.subrange(0, i as int))[j],
            segments(chars@.subrange(0, i as int)).last() == cur@,
        decreases chars.len() - i,
    {
        proof {
            lemma_segments_nonempty(chars@.subrange(0, i as int));
            assert(chars@.subrange(0, i + 1).drop_last() =~= chars@.subrange(0, i as int));
        }
        if chars[i] == '.' {
            let s = string_of(cur.as_slice());
            done.push(s);
            cur = Vec::new();
        } else {
            cur.push(chars[i]);
        }
        i = i + 1;
    }
    assert(chars@.subrange(0, chars.len() as int) =~= path@);
    let s = string_of(cur.as_slice());
    done.push(s);
    done
}

pub open spec fn digit_char(d: int) -> char {
    if d == 0 { '0' } else if d == 1 { '1' } else if d == 2 { '2' } else if d == 3 { '3' }
    else if d == 4 { '4' } else if d == 5 { '5' } else if d == 6 { '6' } else if d == 7 { '7' }
    else if d == 8 { '8' } else { '9' }
}

/// The decimal text of `n`, without leading zeros.
pub open spec fn decimal(n: nat) -> Seq<char>
    decreases n,
{
    if n < 10 {
        seq![digit_char(n as int)]
    } else {
        decimal(n / 10).push(digit_char((n % 10) as int))
    }
}

fn digit_exec(d: usize) -> (c: char)
    requires
        d < 10,
    ensures
        c == digit_char(d as int),
{
    if d == 0 { '0' } else if d == 1 { '1' } else if d == 2 { '2' } else if d == 3 { '3' }
    else if d == 4 { '4' } else if d == 5 { '5' } else if d == 6 { '6' } else if d == 7 { '7' }
    else if d == 8 { '8' } else { '9' }
}

fn push_decimal(n: usize, out: &mut Vec<char>)
    ensures
        final(out)@ == old(out)@ + decimal(n as nat),
    decreases n,
{
    if n >= 10 {
        push_decimal(n / 10, out);
    }
    out.push(digit_exec(n % 10));
    assert(final(out)@ =~= old(out)@ + decimal(n as nat));
}

/// The decimal text of `n`.
pub fn decimal_string(n: usize) -> (r: String)
    ensures
        r@ == decimal(n as nat),
{
    let mut v: Vec<char> = Vec::new();
    push_decimal(n, &mut v);
    assert(v@ =~= decimal(n as nat));
    string_of(v.as_slice())
}

} // verus!

verus! {

/// A text with no dot is a single segment.
pub proof fn lemma_segments_single(p: Seq<char>)
    requires
        forall|i: int| 0 <= i < p.len() ==> p[i] != '.',
    ensures
        segments(p) == seq![p],
    decreases p.len(),
{
    if p.len() > 0 {
        lemma_segments_single(p.drop_last());
        assert(p.drop_last().push(p.last()) =~= p);
    } else {
        assert(p =~= Seq::<char>::empty());
    }
}

pub proof fn lemma_decimal_len(n: nat)
    ensures
        decimal(n).len() >= 1,
        n >= 10 ==> decimal(n).len() >= 2,
    decreases n,
{
    if n >= 10 {
        lemma_decimal_len(n / 10);
    }
}

/// Distinct numbers have distinct decimal texts.
pub proof fn lemma_decimal_injective(n: nat, m: nat)
    requires
        decimal(n) == decimal(m),
    ensures
        n == m,
    decreases n,
{
    lemma_decimal_len(n);
    lemma_decimal_len(m);
    if n < 10 && m < 10 {
        assert(decimal(n) == seq![digit_char(n as int)]);
        assert(decimal(m) == seq![digit_char(m as int)]);
        assert(seq![digit_char(n as int)][0] == digit_char(n as int));
        assert(seq![digit_char(m as int)][0] == digit_char(m as int));
        assert(digit_char(n as int) == digit_char(m as int));
        assert(n == m) by {
            if n != m {
                assert(digit_char(n as int) != digit_char(m as int));
            }
        }
    } else if n < 10 || m < 10 {
        assert(decimal(n).len() != decimal(m).len());
    } else {
        let dn = (n % 10) as int;
        let dm = (m % 10) as int;
        assert(decimal(n) == decimal(n / 10).push(digit_char(dn)));
        assert(decimal(m) == decimal(m / 10).push(digit_char(dm)));
        assert(decimal(n).drop_last() =~= decimal(n / 10));
        assert(decimal(m).drop_last() =~= decimal(m / 10));
        lemma_decimal_injective(n / 10, m / 10);
        assert(decimal(n).last() == digit_char(dn));
        assert(decimal(m).last() == digit_char(dm));
        assert(digit_char(dn) == digit_char(dm));
        assert(dn == dm) by {
            if dn != dm {
                assert(0 <= dn < 10 && 0 <= dm < 10);
                assert(digit_char(dn) != digit_char(dm));
            }
        }
        assert(n == 10 * (n / 10) + n % 10);
        assert(m == 10 * (m / 10) + m % 10);
    }
}

} // verus!
