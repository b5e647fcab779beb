//! Byte-level text operations on UTF-8 encoded text: search, replacement and XML
//! escaping. ASCII patterns and valid UTF-8 patterns only ever match on character
//! boundaries, so these agree with the same operations on characters.
use vstd::prelude::*;

verus! {

/// `pat` occurs in `s` at position `i`.
pub open spec fn occurs_at(s: Seq<u8>, pat: Seq<u8>, i: int) -> bool {
    0 <= i && i + pat.len() <= s.len() && s.subrange(i, i + pat.len()) == pat
}

/// `pat` occurs somewhere in `s`; the empty pattern occurs in every text.
pub open spec fn contains(s: Seq<u8>, pat: Seq<u8>) -> bool {
    exists|i: int| occurs_at(s, pat, i)
}

pub open spec fn starts_with(s: Seq<u8>, pat: Seq<u8>) -> bool {
    occurs_at(s, pat, 0)
}

pub open spec fn ends_with(s: Seq<u8>, pat: Seq<u8>) -> bool {
    occurs_at(s, pat, s.len() - pat.len())
}

/// Every occurrence of `pat` in `s` replaced by `to`, scanning from the left and
/// never overlapping; an empty pattern replaces nothing.
pub open spec fn replace_all(s: Seq<u8>, pat: Seq<u8>, to: Seq<u8>) -> Seq<u8>
    decreases s.len(),
{
    if pat.len() == 0 || s.len() < pat.len() {
        s
    } else if s.subrange(0, pat.len() as int) == pat {
        to + replace_all(s.subrange(pat.len() as int, s.len() as int), pat, to)
    } else {
        seq![s[0]] + replace_all(s.drop_first(), pat, to)
    }
}

/// The XML escape of one byte.
pub open spec fn escape_byte(b: u8) -> Seq<u8> {
    if b == 38u8 {
        seq![38u8, 97u8, 109u8, 112u8, 59u8]  // &amp;
    } else if b == 60u8 {
        seq![38u8, 108u8, 116u8, 59u8]  // &lt;
    } else if b == 62u8 {
        seq![38u8, 103u8, 116u8, 59u8]  // &gt;
    } else if b == 34u8 {
        seq![38u8, 113u8, 117u8, 111u8, 116u8, 59u8]  // &quot;
    } else if b == 39u8 {
        seq![38u8, 97u8, 112u8, 111u8, 115u8, 59u8]  // &apos;
    } else {
        seq![b]
    }
}

/// `s` with the five XML-reserved characters written as entities. Replacing `&` first
/// and the others after it gives the same text, since no entity is escaped twice.
pub open spec fn escape_xml(s: Seq<u8>) -> Seq<u8>
    decreases s.len(),
{
    if s.len() == 0 {
        s
    } else {
        escape_xml(s.drop_last()) + escape_byte(s.last())
    }
}

/// ASCII lowercase of one byte.
pub open spec fn ascii_lower(b: u8) -> u8 {
    if 65u8 <= b && b <= 90u8 {
        (b + 32) as u8
    } else {
        b
    }
}

/// `s` with ASCII letters lowercased.
pub open spec fn lower_ascii(s: Seq<u8>) -> Seq<u8> {
    s.map_values(|b: u8| ascii_lower(b))
}

/// Equal when ASCII letters are compared without case.
pub open spec fn eq_ignore_ascii_case(a: Seq<u8>, b: Seq<u8>) -> bool {
    lower_ascii(a) == lower_ascii(b)
}

pub fn append_bytes(out: &mut Vec<u8>, b: &[u8])
    ensures
        final(out)@ == old(out)@ + b@,
{
    let ghost start = out@;
    let mut i: usize = 0;
    while i < b.len()
        invariant
            i <= b@.len(),
            out@ == start + b@.subrange(0, i as int),
        decreases b@.len() - i,
    {
        out.push(b[i]);
        assert(b@.subrange(0, i + 1) =~= b@.subrange(0, i as int).push(b@[i as int]));
        i = i + 1;
    }
    assert(b@.subrange(0, i as int) =~= b@);
}

/// Whether `pat` occurs in `s` at position `i`.
pub fn occurs_at_exec(s: &[u8], pat: &[u8], i: usize) -> (r: bool)
    ensures
        r == occurs_at(s@, pat@, i as int),
{
    if i > s.len() || pat.len() > s.len() - i {
        return false;
    }
    let mut j: usize = 0;
    while j < pat.len()
        invariant
            j <= pat@.len(),
            i + pat@.len() <= s.len(),
            forall|k: int| 0 <= k < j ==> s@[i + k] == pat@[k],
        decreases pat@.len() - j,
    {
        if s[i + j] != pat[j] {
            assert(s@.subrange(i as int, i + pat@.len())[j as int] != pat@[j as int]);
            return false;
        }
        j = j + 1;
    }
    assert(s@.subrange(i as int, i + pat@.len()) =~= pat@);
    true
}

/// Whether `pat` occurs in `s`.
pub fn contains_exec(s: &[u8], pat: &[u8]) -> (r: bool)
    ensures
        r == contains(s@, pat@),
{
    if pat.len() == 0 {
        assert(s@.subrange(0, 0) =~= pat@);
        assert(occurs_at(s@, pat@, 0));
        return true;
    }
    let mut i: usize = 0;
    while i < s.len()
        invariant
            i <= s@.len(),
            forall|k: int| 0 <= k < i ==> !occurs_at(s@, pat@, k),
        decreases s@.len() - i,
    {
        if occurs_at_exec(s, pat, i) {
            return true;
        }
        i = i + 1;
    }
    assert forall|k: int| !occurs_at(s@, pat@, k) by {
        if 0 <= k < i {
        }
    }
    false
}

/// Whether `s` ends with `pat`.
pub fn ends_with_exec(s: &[u8], pat: &[u8]) -> (r: bool)
    ensures
        r == ends_with(s@, pat@),
{
    if pat.len() > s.len() {
        return false;
    }
    occurs_at_exec(s, pat, s.len() - pat.len())
}

/// Whether `s` starts with `pat`.
pub fn starts_with_exec(s: &[u8], pat: &[u8]) -> (r: bool)
    ensures
        r == starts_with(s@, pat@),
{
    occurs_at_exec(s, pat, 0)
}

/// Every occurrence of `pat` replaced by `to`, and whether there was one.
pub fn replace_bytes(s: &[u8], pat: &[u8], to: &[u8]) -> (r: (Vec<u8>, bool))
    ensures
        r.0@ == replace_all(s@, pat@, to@),
        r.1 == (pat@.len() > 0 && contains(s@, pat@)),
{
    let n = s.len();
    let m = pat.len();
    let mut out: Vec<u8> = Vec::new();
    if m == 0 {
        append_bytes(&mut out, s);
        return (out, false);
    }
    let mut found = false;
    let mut i: usize = 0;
    assert(s@.subrange(0, n as int) =~= s@);
    while i < n
        invariant
            i <= n,
            n == s@.len(),
            m == pat@.len(),
            m > 0,
            replace_all(s@, pat@, to@) == out@ + replace_all(
                s@.subrange(i as int, n as int),
                pat@,
                to@,
            ),
            !found ==> forall|k: int| 0 <= k < i ==> !occurs_at(s@, pat@, k),
            found ==> contains(s@, pat@),
        decreases n - i,
    {
        let ghost rest = s@.subrange(i as int, n as int);
        if occurs_at_exec(s, pat, i) {
            assert(rest.subrange(0, m as int) =~= pat@);
            assert(rest.subrange(m as int, rest.len() as int) =~= s@.subrange(i + m, n as int));
            let ghost before = out@;
            let ghost tail = replace_all(s@.subrange(i + m, n as int), pat@, to@);
            assert(replace_all(rest, pat@, to@) == to@ + tail);
            append_bytes(&mut out, to);
            assert(out@ + tail =~= before + (to@ + tail));
            found = true;
            i = i + m;
        } else {
            assert(rest.drop_first() =~= s@.subrange(i + 1, n as int));
            proof {
                if rest.len() >= m {
                    assert(s@.subrange(i as int, i + m) =~= rest.subrange(0, m as int));
                    assert(rest.subrange(0, m as int) != pat@);
                } else {
                    assert(s@.subrange(i + 1, n as int).len() < m);
                    assert(rest =~= seq![s@[i as int]] + s@.subrange(i + 1, n as int));
                }
            }
            let ghost before = out@;
            let ghost tail = replace_all(s@.subrange(i + 1, n as int), pat@, to@);
            assert(replace_all(rest, pat@, to@) == seq![s@[i as int]] + tail);
            out.push(s[i]);
            assert(out@ + tail =~= before + (seq![s@[i as int]] + tail));
            i = i + 1;
        }
    }
    if !found {
        assert forall|k: int| !occurs_at(s@, pat@, k) by {
            if 0 <= k < i {
            }
        }
    }
    assert(s@.subrange(n as int, n as int) =~= Seq::<u8>::empty());
    assert(out@ + Seq::<u8>::empty() =~= out@);
    (out, found)
}


/// `s` with the five XML-reserved characters written as entities.
pub fn escape_xml_exec(s: &[u8]) -> (r: Vec<u8>)
    ensures
        r@ == escape_xml(s@),
{
    let mut out: Vec<u8> = Vec::new();
    let mut i: usize = 0;
    assert(s@.subrange(0, 0) =~= Seq::<u8>::empty());
    while i < s.len()
        invariant
            i <= s@.len(),
            out@ == escape_xml(s@.subrange(0, i as int)),
        decreases s@.len() - i,
    {
        let b = s[i];
        assert(s@.subrange(0, i + 1).drop_last() =~= s@.subrange(0, i as int));
        let ghost before = out@;
        if b == 38u8 {
            append_bytes(&mut out, &[38u8, 97u8, 109u8, 112u8, 59u8]);
        } else if b == 60u8 {
            append_bytes(&mut out, &[38u8, 108u8, 116u8, 59u8]);
        } else if b == 62u8 {
            append_bytes(&mut out, &[38u8, 103u8, 116u8, 59u8]);
        } else if b == 34u8 {
            append_bytes(&mut out, &[38u8, 113u8, 117u8, 111u8, 116u8, 59u8]);
        } else if b == 39u8 {
            append_bytes(&mut out, &[38u8, 97u8, 112u8, 111u8, 115u8, 59u8]);
        } else {
            out.push(b);
        }
        assert(out@ =~= before + escape_byte(b));
        i = i + 1;
    }
    assert(s@.subrange(0, i as int) =~= s@);
    out
}

/// `s` with ASCII letters lowercased.
pub fn lower_ascii_exec(s: &[u8]) -> (r: Vec<u8>)
    ensures
        r@ == lower_ascii(s@),
{
    let mut out: Vec<u8> = Vec::new();
    let mut i: usize = 0;
    while i < s.len()
        invariant
            i <= s@.len(),
            out@.len() == i,
            forall|k: int| 0 <= k < i ==> out@[k] == ascii_lower(s@[k]),
        decreases s@.len() - i,
    {
        let b = s[i];
        if 65u8 <= b && b <= 90u8 {
            out.push(b + 32);
        } else {
            out.push(b);
        }
        i = i + 1;
    }
    assert(out@ =~= lower_ascii(s@));
    out
}

/// Whether `a` and `b` are equal when ASCII letters are compared without case.
pub fn eq_ignore_ascii_case_exec(a: &[u8], b: &[u8]) -> (r: bool)
    ensures
        r == eq_ignore_ascii_case(a@, b@),
{
    let la = lower_ascii_exec(a);
    let lb = lower_ascii_exec(b);
    if la.len() != lb.len() {
        return false;
    }
    let mut i: usize = 0;
    while i < la.len()
        invariant
            i <= la@.len(),
            la@.len() == lb@.len(),
            la@ == lower_ascii(a@),
            lb@ == lower_ascii(b@),
            forall|k: int| 0 <= k < i ==> la@[k] == lb@[k],
        decreases la@.len() - i,
    {
        if la[i] != lb[i] {
            assert(la@[i as int] != lb@[i as int]);
            return false;
        }
        i = i + 1;
    }
    assert(la@ =~= lb@);
    true
}

} // verus!
