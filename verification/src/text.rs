use vstd::prelude::*;
use vstd::string::*;

verus! {

/// The whitespace characters that trimming removes: the Unicode
/// `White_Space` set, the same set `str::trim` uses.
pub open spec fn is_space(c: char) -> bool {
    let u = c as u32;
    u == 0x20 || u == 0x09 || u == 0x0a || u == 0x0d || u == 0x0b || u == 0x0c
        || u == 0x85 || u == 0xa0 || u == 0x1680 || (0x2000 <= u && u <= 0x200a)
        || u == 0x2028 || u == 0x2029 || u == 0x202f || u == 0x205f || u == 0x3000
}

/// `s` with its leading whitespace removed.
pub open spec fn trim_front_spec(s: Seq<char>) -> Seq<char>
    decreases s.len(),
{
    if s.len() > 0 && is_space(s[0]) {
        trim_front_spec(s.skip(1))
    } else {
        s
    }
}

/// `s` with its trailing whitespace removed.
pub open spec fn trim_back_spec(s: Seq<char>) -> Seq<char>
    decreases s.len(),
{
    if s.len() > 0 && is_space(s.last()) {
        trim_back_spec(s.drop_last())
    } else {
        s
    }
}

/// `s` with leading and trailing whitespace removed.
pub open spec fn trim_spec(s: Seq<char>) -> Seq<char> {
    trim_back_spec(trim_front_spec(s))
}

/// Whether `c` is a whitespace character.
pub fn space_char(c: char) -> (r: bool)
    ensures
        r == is_space(c),
{
    let u: u32 = c as u32;
    u == 0x20 || u == 0x09 || u == 0x0a || u == 0x0d || u == 0x0b || u == 0x0c
        || u == 0x85 || u == 0xa0 || u == 0x1680 || (0x2000 <= u && u <= 0x200a)
        || u == 0x2028 || u == 0x2029 || u == 0x202f || u == 0x205f || u == 0x3000
}

/// A copy of `s` with leading and trailing whitespace removed.
pub fn trim(s: &str) -> (r: String)
    ensures
        r@ == trim_spec(s@),
{
    let n: usize = s.unicode_len();
    let mut lo: usize = 0;
    proof {
        assert(s@.skip(0) =~= s@);
    }
    while lo < n && space_char(s.get_char(lo))
        invariant
            n == s@.len(),
            lo <= n,
            trim_front_spec(s@) == trim_front_spec(s@.skip(lo as int)),
        decreases n - lo,
    {
        proof {
            let t = s@.skip(lo as int);
            assert(t.len() > 0);
            assert(t[0] == s@[lo as int]);
            assert(t.skip(1) =~= s@.skip(lo as int + 1));
        }
        lo = lo + 1;
    }
    proof {
        assert(trim_front_spec(s@.skip(lo as int)) == s@.skip(lo as int));
    }
    let mut hi: usize = n;
    while hi > lo && space_char(s.get_char(hi - 1))
        invariant
            n == s@.len(),
            lo <= hi <= n,
            trim_back_spec(s@.skip(lo as int)) == trim_back_spec(
                s@.subrange(lo as int, hi as int),
            ),
        decreases hi,
    {
        proof {
            let t = s@.subrange(lo as int, hi as int);
            assert(t.len() > 0);
            assert(t.last() == s@[hi - 1]);
            assert(t.drop_last() =~= s@.subrange(lo as int, hi as int - 1));
        }
        hi = hi - 1;
    }
    let t = s.substring_char(lo, hi);
    proof {
        let u = s@.subrange(lo as int, hi as int);
        assert(s@.skip(lo as int) =~= s@.subrange(lo as int, n as int));
        assert(trim_back_spec(u) == u);
        assert(trim_spec(s@) == u);
    }
    t.to_owned()
}

/// The characters of `s`, as a vector.
pub fn chars_of(s: &str) -> (r: Vec<char>)
    ensures
        r@ == s@,
{
    let n: usize = s.unicode_len();
    let mut r: Vec<char> = Vec::new();
    let mut i: usize = 0;
    while i < n
        invariant
            n == s@.len(),
            i <= n,
            r@ == s@.take(i as int),
        decreases n - i,
    {
        let c = s.get_char(i);
        r.push(c);
        proof {
            assert(s@.take(i as int + 1) =~= s@.take(i as int).push(s@[i as int]));
        }
        i = i + 1;
    }
    proof {
        assert(s@.take(n as int) =~= s@);
    }
    r
}

/// Relies on `String::from_iter` over `char`s: the collected string holds
/// exactly the characters of the iterator, in order.
#[verifier::external_body]
pub fn string_from_chars(v: &Vec<char>) -> (r: String)
    ensures
        r@ == v@,
{
    v.iter().collect()
}

/// Whether two string slices hold the same characters.
pub fn str_eq(a: &str, b: &str) -> (r: bool)
    ensures
        r == (a@ == b@),
{
    let na: usize = a.unicode_len();
    let nb: usize = b.unicode_len();
    if na != nb {
        return false;
    }
    let mut i: usize = 0;
    while i < na
        invariant
            na == a@.len(),
            na == b@.len(),
            i <= na,
            forall|j: int| 0 <= j < i ==> a@[j] == b@[j],
        decreases na - i,
    {
        if a.get_char(i) != b.get_char(i) {
            return false;
        }
        i = i + 1;
    }
    proof {
        assert(a@ =~= b@);
    }
    true
}

} // verus!
