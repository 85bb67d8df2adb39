//! Byte-string utilities: case-sensitive substring search, line splitting of
//! command output, and decimal formatting of integers.

use vstd::prelude::*;

verus! {

/// The needle `nee` occurs in `hay` starting at position `i`.
pub open spec fn match_at(hay: Seq<u8>, nee: Seq<u8>, i: int) -> bool {
    &&& 0 <= i
    &&& i + nee.len() <= hay.len()
    &&& hay.subrange(i, i + nee.len()) == nee
}

/// Case-sensitive substring containment on byte strings.
pub open spec fn contains_bytes(hay: Seq<u8>, nee: Seq<u8>) -> bool {
    exists|i: int| match_at(hay, nee, i)
}

/// Whether `nee` occurs at position `i` of `hay`, checked byte by byte.
fn matches_at(hay: &Vec<u8>, nee: &Vec<u8>, i: usize) -> (r: bool)
    requires
        i + nee@.len() <= hay@.len(),
    ensures
        r == match_at(hay@, nee@, i as int),
{
    let hlen: usize = hay.len();
    let mut j: usize = 0;
    while j < nee.len()
        invariant
            0 <= j <= nee@.len(),
            i + nee@.len() <= hay@.len(),
            hlen == hay@.len(),
            forall|k: int| 0 <= k < j ==> hay@[i + k] == nee@[k],
        decreases nee@.len() - j,
    {
        if hay[i + j] != nee[j] {
            assert(hay@.subrange(i as int, i + nee@.len())[j as int] != nee@[j as int]);
            return false;
        }
        j += 1;
    }
    assert(hay@.subrange(i as int, i + nee@.len()) =~= nee@);
    true
}

/// Case-sensitive substring search: does `hay` contain `nee`?
pub fn bytes_contains(hay: &Vec<u8>, nee: &Vec<u8>) -> (r: bool)
    ensures
        r == contains_bytes(hay@, nee@),
{
    if nee.len() > hay.len() {
        assert(forall|i: int| !match_at(hay@, nee@, i));
        return false;
    }
    if nee.len() == 0 {
        assert(match_at(hay@, nee@, 0)) by {
            assert(hay@.subrange(0, 0) =~= nee@);
        }
        return true;
    }
    let hlen: usize = hay.len();
    let nlen: usize = nee.len();
    let mut i: usize = 0;
    while i <= hlen - nlen
        invariant
            1 <= nee@.len() <= hay@.len(),
            hlen == hay@.len(),
            nlen == nee@.len(),
            0 <= i <= hay@.len() - nee@.len() + 1,
            forall|k: int| 0 <= k < i ==> !match_at(hay@, nee@, k),
        decreases hay@.len() - nee@.len() - i + 1,
    {
        if matches_at(hay, nee, i) {
            return true;
        }
        i += 1;
    }
    assert(forall|k: int| match_at(hay@, nee@, k) ==> 0 <= k <= hay@.len() - nee@.len());
    false
}

/// Offset of the first line-feed byte in `s`, or `s.len()` if there is none.
pub open spec fn first_nl(s: Seq<u8>) -> nat
    decreases s.len(),
{
    if s.len() == 0 {
        0
    } else if s[0] == 10 {
        0
    } else {
        1 + first_nl(s.drop_first())
    }
}

pub proof fn lemma_first_nl(s: Seq<u8>)
    ensures
        first_nl(s) <= s.len(),
        first_nl(s) < s.len() ==> s[first_nl(s) as int] == 10,
        forall|k: int| 0 <= k < first_nl(s) ==> s[k] != 10,
    decreases s.len(),
{
    if s.len() == 0 {
    } else if s[0] == 10 {
    } else {
        lemma_first_nl(s.drop_first());
        assert forall|k: int| 0 <= k < first_nl(s) implies s[k] != 10 by {
            if k >= 1 {
                assert(s.drop_first()[k - 1] != 10);
            }
        }
    }
}

/// `first_nl` is pinned down by its characteristic properties.
pub proof fn lemma_first_nl_is(s: Seq<u8>, i: int)
    requires
        0 <= i <= s.len(),
        i < s.len() ==> s[i] == 10,
        i == s.len() ==> forall|k: int| 0 <= k < s.len() ==> s[k] != 10,
        forall|k: int| 0 <= k < i ==> s[k] != 10,
    ensures
        first_nl(s) == i,
{
    lemma_first_nl(s);
    if first_nl(s) < i {
        assert(s[first_nl(s) as int] != 10);
    }
    if i < first_nl(s) {
        assert(s[i] != 10);
    }
}

/// A line with its terminator removed: a final carriage return (left over
/// from a CR-LF line ending) is dropped.
pub open spec fn strip_cr(l: Seq<u8>) -> Seq<u8> {
    if l.len() > 0 && l[l.len() - 1] == 13 {
        l.drop_last()
    } else {
        l
    }
}

/// The lines of a byte string, split at line feeds, with CR-LF treated as a
/// single terminator and no empty final line after a trailing terminator.
pub open spec fn lines_of(s: Seq<u8>) -> Seq<Seq<u8>>
    decreases s.len(),
{
    if s.len() == 0 {
        Seq::empty()
    } else {
        let i = first_nl(s) as int;
        if i >= s.len() {
            seq![s]
        } else {
            seq![strip_cr(s.take(i))] + lines_of(s.skip(i + 1))
        }
    }
}

/// Split command output into its lines, as `str::lines` does: terminators
/// (line feed, or carriage return and line feed) are removed, and a trailing
/// terminator produces no empty final line.
pub fn split_lines(s: &Vec<u8>) -> (lines: Vec<Vec<u8>>)
    ensures
        lines.deep_view() == lines_of(s@),
{
    let slen: usize = s.len();
    let mut out: Vec<Vec<u8>> = Vec::new();
    let mut cur: Vec<u8> = Vec::new();
    let ghost mut start: int = 0;
    let mut p: usize = 0;
    proof {
        assert(s@.skip(0) =~= s@);
    }
    while p < slen
        invariant
            slen == s@.len(),
            0 <= start <= p <= slen,
            cur@ == s@.subrange(start, p as int),
            forall|k: int| start <= k < p ==> s@[k] != 10,
            lines_of(s@) == out.deep_view() + lines_of(s@.skip(start)),
        decreases slen - p,
    {
        let b = s[p];
        if b == 10 {
            // Close the current line: strip a final carriage return.
            let mut line = cur;
            if line.len() > 0 && line[line.len() - 1] == 13 {
                line.pop();
            }
            let ghost out0 = out.deep_view();
            proof {
                let rest = s@.skip(start);
                lemma_first_nl_is(rest, p - start);
                assert(rest.take(p - start) =~= s@.subrange(start, p as int));
                assert(line@ =~= strip_cr(s@.subrange(start, p as int)));
                assert(rest.skip(p - start + 1) =~= s@.skip(p + 1));
                assert(lines_of(rest) == seq![line@] + lines_of(s@.skip(p + 1)));
            }
            out.push(line);
            cur = Vec::new();
            proof {
                start = p + 1;
                assert(cur@ =~= s@.subrange(start, p + 1));
                assert(out.deep_view() =~~= out0.push(line@));
                assert(out0.push(line@) + lines_of(s@.skip(p + 1))
                    =~= out0 + (seq![line@] + lines_of(s@.skip(p + 1))));
            }
        } else {
            cur.push(b);
            proof {
                assert(cur@ =~= s@.subrange(start, p + 1));
            }
        }
        p += 1;
    }
    if cur.len() > 0 {
        let ghost out0 = out.deep_view();
        let ghost curv = cur@;
        proof {
            let rest = s@.skip(start);
            lemma_first_nl_is(rest, rest.len() as int);
            assert(rest =~= cur@);
            assert(lines_of(rest) == seq![rest]);
        }
        out.push(cur);
        proof {
            assert(out.deep_view() =~~= out0.push(curv));
            assert(out0.push(curv) =~= out0 + seq![curv]);
        }
    } else {
        proof {
            assert(s@.skip(start) =~= Seq::<u8>::empty());
            assert(out.deep_view() + lines_of(s@.skip(start)) =~= out.deep_view());
        }
    }
    out
}

/// The decimal digits of `n`, most significant first.
pub open spec fn dec_digits(n: nat) -> Seq<u8>
    decreases n,
{
    if n < 10 {
        seq![(48 + n) as u8]
    } else {
        dec_digits(n / 10).push((48 + n % 10) as u8)
    }
}

/// Every decimal rendering is nonempty and consists of digit bytes.
pub proof fn lemma_dec_digits_are_digits(n: nat)
    ensures
        dec_digits(n).len() >= 1,
        forall|k: int| 0 <= k < dec_digits(n).len() ==> 48 <= #[trigger] dec_digits(n)[k] <= 57,
    decreases n,
{
    if n >= 10 {
        lemma_dec_digits_are_digits(n / 10);
    }
}

fn push_decimal(n: u32, out: &mut Vec<u8>)
    ensures
        final(out)@ == old(out)@ + dec_digits(n as nat),
    decreases n,
{
    if n < 10 {
        out.push(48 + (n as u8));
        assert(out@ =~= old(out)@ + dec_digits(n as nat));
    } else {
        push_decimal(n / 10, out);
        out.push(48 + ((n % 10) as u8));
        assert(out@ =~= old(out)@ + dec_digits(n as nat));
    }
}

/// Render `n` in decimal, most significant digit first.
pub fn u32_decimal(n: u32) -> (v: Vec<u8>)
    ensures
        v@ == dec_digits(n as nat),
{
    let mut v: Vec<u8> = Vec::new();
    push_decimal(n, &mut v);
    proof {
        assert(v@ =~= dec_digits(n as nat));
    }
    v
}

} // verus!
