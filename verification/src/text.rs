//! Small verified string routines: equality, decimal rendering, building.
use vstd::prelude::*;
use vstd::utf8::*;

verus! {

/// Whether two strings hold the same characters.
pub fn str_eq(a: &str, b: &str) -> (r: bool)
    ensures
        r == (a@ == b@),
{
    let ab = a.as_bytes();
    let bb = b.as_bytes();
    proof {
        encode_utf8_decode_utf8(a@);
        encode_utf8_decode_utf8(b@);
    }
    assert(a@ == b@ ==> ab@ == bb@);
    assert(ab@ == bb@ ==> a@ == b@);
    if ab.len() != bb.len() {
        return false;
    }
    let mut i: usize = 0;
    while i < ab.len()
        invariant
            ab@.len() == bb@.len(),
            a@ == b@ ==> ab@ == bb@,
            ab@ == bb@ ==> a@ == b@,
            i <= ab@.len(),
            forall|k: int| 0 <= k < i ==> ab@[k] == bb@[k],
        decreases ab@.len() - i,
    {
        if ab[i] != bb[i] {
            assert(ab@ != bb@);
            return false;
        }
        i += 1;
    }
    assert(ab@ =~= bb@);
    true
}

/// `String::push` of std: appends one character.
#[verifier::external_body]
pub(crate) fn push_char(s: &mut String, c: char)
    ensures
        final(s)@ == old(s)@.push(c),
{
    s.push(c);
}

/// The decimal digit character of `d < 10`.
pub open spec fn digit_char(d: nat) -> char {
    if d == 0 { '0' } else if d == 1 { '1' } else if d == 2 { '2' } else if d == 3 { '3' }
    else if d == 4 { '4' } else if d == 5 { '5' } else if d == 6 { '6' } else if d == 7 { '7' }
    else if d == 8 { '8' } else { '9' }
}

/// The decimal rendering of `n`, without sign or leading zeros.
pub open spec fn decimal(n: nat) -> Seq<char>
    decreases n,
{
    if n < 10 {
        seq![digit_char(n)]
    } else {
        decimal(n / 10).push(digit_char(n % 10))
    }
}

fn digit(d: u64) -> (c: char)
    requires
        d < 10,
    ensures
        c == digit_char(d as nat),
{
    if d == 0 { '0' } else if d == 1 { '1' } else if d == 2 { '2' } else if d == 3 { '3' }
    else if d == 4 { '4' } else if d == 5 { '5' } else if d == 6 { '6' } else if d == 7 { '7' }
    else if d == 8 { '8' } else { '9' }
}

/// Appends the decimal rendering of `n` to `out`.
pub fn push_decimal(out: &mut Vec<char>, n: u64)
    ensures
        final(out)@ == old(out)@ + decimal(n as nat),
    decreases n,
{
    if n >= 10 {
        push_decimal(out, n / 10);
    }
    out.push(digit(n % 10));
    proof {
        if n < 10 {
            assert(old(out)@ + decimal(n as nat) =~= old(out)@.push(digit_char(n as nat)));
        } else {
            assert(old(out)@ + decimal(n as nat) =~= (old(out)@ + decimal((n / 10) as nat)).push(
                digit_char((n % 10) as nat),
            ));
        }
    }
}

/// The characters of a string slice.
pub fn chars_of(s: &str) -> (r: Vec<char>)
    ensures
        r@ == s@,
{
    let n = s.unicode_len();
    let mut out: Vec<char> = Vec::with_capacity(n);
    let mut i: usize = 0;
    while i < n
        invariant
            n == s@.len(),
            i <= n,
            out@ == s@.take(i as int),
        decreases n - i,
    {
        out.push(s.get_char(i));
        i += 1;
        assert(out@ =~= s@.take(i as int));
    }
    assert(s@.take(n as int) =~= s@);
    out
}

/// A string holding the characters `chars`.
pub fn string_of(chars: &Vec<char>) -> (r: String)
    ensures
        r@ == chars@,
{
    let mut out = String::new();
    let mut i: usize = 0;
    while i < chars.len()
        invariant
            i <= chars@.len(),
            out@ == chars@.take(i as int),
        decreases chars@.len() - i,
    {
        push_char(&mut out, chars[i]);
        i += 1;
        assert(out@ =~= chars@.take(i as int));
    }
    assert(chars@.take(chars@.len() as int) =~= chars@);
    out
}

/// `s` with every occurrence of `pat` replaced by `rep`, occurrences found
/// left to right without overlap (the rule of `str::replace`). An empty
/// pattern leaves `s` as it is.
pub open spec fn replace_all(s: Seq<char>, pat: Seq<char>, rep: Seq<char>) -> Seq<char>
    decreases s.len(),
{
    if pat.len() == 0 || s.len() == 0 {
        s
    } else if s.len() >= pat.len() && s.subrange(0, pat.len() as int) == pat {
        rep + replace_all(s.skip(pat.len() as int), pat, rep)
    } else {
        seq![s[0]] + replace_all(s.skip(1), pat, rep)
    }
}

/// Whether `pat` occurs in `s` at position `at`.
fn occurs_at(s: &Vec<char>, at: usize, pat: &Vec<char>) -> (r: bool)
    requires
        at <= s@.len(),
    ensures
        r == (s@.len() - at >= pat@.len() && s@.skip(at as int).subrange(0, pat@.len() as int) == pat@),
{
    let n = s.len();
    if n - at < pat.len() {
        return false;
    }
    let mut k: usize = 0;
    while k < pat.len()
        invariant
            n == s@.len(),
            at <= s@.len(),
            s@.len() - at >= pat@.len(),
            k <= pat@.len(),
            forall|m: int| 0 <= m < k ==> s@[at + m] == pat@[m],
        decreases pat@.len() - k,
    {
        assert(at + k < s@.len());
        if s[at + k] != pat[k] {
            assert(s@.skip(at as int).subrange(0, pat@.len() as int)[k as int] != pat@[k as int]);
            return false;
        }
        k += 1;
    }
    assert(s@.skip(at as int).subrange(0, pat@.len() as int) =~= pat@);
    true
}

/// [`replace_all`] on character vectors.
pub fn replace_chars(s: &Vec<char>, pat: &Vec<char>, rep: &Vec<char>) -> (r: Vec<char>)
    ensures
        r@ == replace_all(s@, pat@, rep@),
{
    let mut out: Vec<char> = Vec::new();
    if pat.len() == 0 {
        let mut i: usize = 0;
        while i < s.len()
            invariant
                i <= s@.len(),
                out@ == s@.take(i as int),
            decreases s@.len() - i,
        {
            out.push(s[i]);
            i += 1;
            assert(out@ =~= s@.take(i as int));
        }
        assert(s@.take(s@.len() as int) =~= s@);
        return out;
    }
    let mut i: usize = 0;
    assert(s@.skip(0) =~= s@);
    assert(out@ + replace_all(s@, pat@, rep@) =~= replace_all(s@, pat@, rep@));
    while i < s.len()
        invariant
            pat@.len() > 0,
            i <= s@.len(),
            replace_all(s@, pat@, rep@) == out@ + replace_all(s@.skip(i as int), pat@, rep@),
        decreases s@.len() - i,
    {
        let ghost rest = s@.skip(i as int);
        if occurs_at(s, i, pat) {
            let mut k: usize = 0;
            let ghost before = out@;
            while k < rep.len()
                invariant
                    k <= rep@.len(),
                    out@ == before + rep@.take(k as int),
                decreases rep@.len() - k,
            {
                out.push(rep[k]);
                k += 1;
                assert(out@ =~= before + rep@.take(k as int));
            }
            assert(rep@.take(rep@.len() as int) =~= rep@);
            assert(rest.skip(pat@.len() as int) =~= s@.skip(i + pat@.len()));
            assert(before + (rep@ + replace_all(rest.skip(pat@.len() as int), pat@, rep@))
                =~= out@ + replace_all(s@.skip(i + pat@.len()), pat@, rep@));
            i = i + pat.len();
        } else {
            let ghost before = out@;
            out.push(s[i]);
            assert(rest.skip(1) =~= s@.skip(i + 1));
            assert(before + (seq![rest[0]] + replace_all(rest.skip(1), pat@, rep@))
                =~= out@ + replace_all(s@.skip(i + 1), pat@, rep@));
            i = i + 1;
        }
    }
    assert(s@.skip(i as int) =~= Seq::<char>::empty());
    assert(out@ + Seq::<char>::empty() =~= out@);
    out
}

/// Appends the characters of `s` to `out`.
pub fn push_str_chars(out: &mut Vec<char>, s: &str)
    ensures
        final(out)@ == old(out)@ + s@,
{
    let chars = chars_of(s);
    let ghost base = out@;
    let mut i: usize = 0;
    while i < chars.len()
        invariant
            i <= chars@.len(),
            chars@ == s@,
            out@ == base + chars@.take(i as int),
        decreases chars@.len() - i,
    {
        out.push(chars[i]);
        i += 1;
        assert(out@ =~= base + chars@.take(i as int));
    }
    assert(chars@.take(chars@.len() as int) =~= chars@);
}

} // verus!
